use melt::epoch::parse_epoch;
use melt::snowflake::SnowflakeParts;
use melt::template::expand_template;
use melt::template::u64_to_dec;

fn sample() -> SnowflakeParts {
    // datacenter 10, worker 30, sequence 0.
    SnowflakeParts::melt(844882040566702080, parse_epoch("twitter").unwrap())
}

#[test]
fn custom_directives_insert_field_values() {
    let parts = sample();
    assert_eq!(parts.format("%^d %^w %^s", "Etc/UTC").unwrap(), "10 30 0");
    assert_eq!(
        parts.format("dc=%^d worker=%^w seq=%^s at %s", "Etc/UTC").unwrap(),
        "dc=10 worker=30 seq=0 at 1490270550"
    );
}

#[test]
fn literal_percent_is_never_a_directive() {
    // "%%^d" must render as a literal '%' followed by "^d".
    let parts = sample();
    assert_eq!(parts.format("%%^d", "Etc/UTC").unwrap(), "%^d");
    assert_eq!(parts.format("%%^w%%^s", "Etc/UTC").unwrap(), "%^w%^s");
    assert_eq!(parts.format("a%^db%%^dc", "Etc/UTC").unwrap(), "a10b%^dc");
}

#[test]
fn expansion_is_idempotent() {
    // Expanding an already-expanded template changes nothing: the
    // inserted digits are never rescanned.
    let template: Vec<char> = "x%^d_%^w_%^s%%^d%^".chars().collect();
    let once = expand_template(&template, 10, 30, 0);
    let twice = expand_template(&once, 10, 30, 0);
    assert_eq!(once, twice);
    let rendered: String = once.iter().collect();
    assert_eq!(rendered, "x10_30_0%%^d%^");
}

#[test]
fn decimal_rendering() {
    let digits: String = u64_to_dec(0).iter().collect();
    assert_eq!(digits, "0");
    let digits: String = u64_to_dec(31).iter().collect();
    assert_eq!(digits, "31");
    let digits: String = u64_to_dec(4095).iter().collect();
    assert_eq!(digits, "4095");
}

#[test]
fn unknown_timezone_is_refused() {
    assert!(sample().format("%s", "Nowhere/Special").is_none());
    assert!(sample().format("%s", "").is_none());
}

#[test]
fn malformed_template_is_refused_by_the_engine() {
    assert!(sample().format("%Q", "Etc/UTC").is_none());
    assert!(sample().format("trailing %", "Etc/UTC").is_none());
}

#[test]
fn timezone_shifts_wall_clock() {
    let parts = sample();
    assert_eq!(parts.format("%H", "Etc/UTC").unwrap(), "12");
    assert_eq!(parts.format("%H", "Europe/Berlin").unwrap(), "13");
    assert_eq!(parts.format("%H", "America/New_York").unwrap(), "08");
}
