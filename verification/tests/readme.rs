use melt::epoch::parse_epoch;
use melt::snowflake::SnowflakeParts;

#[test]
fn readme_examples() {
    assert_eq!(
        SnowflakeParts::melt(844882040566702080, parse_epoch("twitter").unwrap())
            .format("%s%.f", "Etc/UTC")
            .unwrap(),
        "1490270550.277"
    );
    assert_eq!(
        SnowflakeParts::melt(844882040566702080, parse_epoch("twitter").unwrap())
            .format("%d.%m.%Y %H:%M:%S", "Etc/UTC")
            .unwrap(),
        "23.03.2017 12:02:30"
    );
    assert_eq!(
        SnowflakeParts::melt(844882040566702080, parse_epoch("twitter").unwrap())
            .format("%d.%m.%Y %H:%M:%S", "Europe/Berlin")
            .unwrap(),
        "23.03.2017 13:02:30"
    );
    assert_eq!(
        SnowflakeParts::melt(86841168427495424, parse_epoch("discord").unwrap())
            .format("%s%.f", "Etc/UTC")
            .unwrap(),
        "1440774947.984"
    );
}
