//! The decoder: splitting a 64-bit Snowflake into its bit fields and
//! anchoring its millisecond offset at a caller-supplied epoch.

use vstd::prelude::*;
use crate::render::chars_to_string;
use crate::render::millis_in_datetime_range;
use crate::render::render_strftime;
use crate::render::str_to_chars;
use crate::render::strftime_ok;
use crate::render::strftime_render;
use crate::render::tz_known;
use crate::template::dec_digits;
use crate::template::expand_spec;
use crate::template::expand_template;

verus! {

/// Width in bits of the datacenter-id field.
pub const DATACENTER_ID_BITS: u64 = 5;

/// Width in bits of the worker-id field.
pub const WORKER_ID_BITS: u64 = 5;

/// Width in bits of the sequence field.
pub const SEQUENCE_ID_BITS: u64 = 12;

/// The parts packed into a Snowflake, with the embedded millisecond
/// offset already anchored at an epoch.
///
/// `timestamp_ms` is an absolute UTC instant given as signed
/// milliseconds since the UNIX epoch; `data_center` and `worker` lie in
/// `[0, 32)` and `sequence` in `[0, 4096)`, each an exact bit slice of
/// the input integer.
#[derive(Clone, Copy, Debug, PartialEq, Eq, Structural)]
pub struct SnowflakeParts {
    pub timestamp_ms: i64,
    pub data_center: u8,
    pub worker: u8,
    pub sequence: u16,
}

/// The parts that `melt` extracts from `flake` against `epoch_ms`:
/// bits [0, 12) are the sequence, bits [12, 17) the worker id,
/// bits [17, 22) the datacenter id, and bits [22, 64) the millisecond
/// offset added to the epoch.
pub open spec fn melted(flake: u64, epoch_ms: i64) -> SnowflakeParts {
    SnowflakeParts {
        timestamp_ms: (epoch_ms + (flake >> 22)) as i64,
        data_center: ((flake >> 17) & 0x1f) as u8,
        worker: ((flake >> 12) & 0x1f) as u8,
        sequence: (flake & 0xfff) as u16,
    }
}

impl SnowflakeParts {
    /// Breaks a snowflake into its component parts.
    ///
    /// The precondition only rules out a timestamp beyond what signed
    /// 64-bit milliseconds can carry, which no realistic epoch and
    /// Snowflake reach; `melt_checked` decides it at run time instead.
    pub fn melt(flake: u64, epoch_ms: i64) -> (r: SnowflakeParts)
        requires
            epoch_ms + (flake >> 22) <= i64::MAX,
        ensures
            r == melted(flake, epoch_ms),
            r.timestamp_ms == epoch_ms + (flake >> 22),
            r.sequence == flake & 0xfff,
            r.worker == (flake >> 12) & 0x1f,
            r.data_center == (flake >> 17) & 0x1f,
    {
        let sequence_bits: u64 = flake & 0xfff;
        let worker_bits: u64 = (flake >> SEQUENCE_ID_BITS) & 0x1f;
        let data_center_bits: u64 = (flake >> SEQUENCE_ID_BITS >> WORKER_ID_BITS) & 0x1f;
        let offset_ms: u64 = flake >> SEQUENCE_ID_BITS >> WORKER_ID_BITS >> DATACENTER_ID_BITS;
        assert(sequence_bits < 4096 && worker_bits < 32 && data_center_bits < 32
            && offset_ms < 0x40000000000) by (bit_vector)
            requires
                sequence_bits == flake & 0xfff,
                worker_bits == (flake >> 12u64) & 0x1f,
                data_center_bits == (flake >> 12u64 >> 5u64) & 0x1f,
                offset_ms == flake >> 12u64 >> 5u64 >> 5u64,
        ;
        assert(flake >> 12u64 >> 5u64 == flake >> 17u64) by (bit_vector);
        assert(flake >> 12u64 >> 5u64 >> 5u64 == flake >> 22u64) by (bit_vector);
        let timestamp_ms: i64 = epoch_ms + (offset_ms as i64);
        SnowflakeParts {
            timestamp_ms,
            data_center: data_center_bits as u8,
            worker: worker_bits as u8,
            sequence: sequence_bits as u16,
        }
    }

    /// `melt`, with the out-of-range guard made at run time: `None`
    /// exactly when the anchored timestamp would exceed `i64::MAX`
    /// milliseconds.
    pub fn melt_checked(flake: u64, epoch_ms: i64) -> (r: Option<SnowflakeParts>)
        ensures
            (r is Some) == (epoch_ms + (flake >> 22) <= i64::MAX),
            r matches Some(p) ==> p == melted(flake, epoch_ms),
    {
        let offset_ms: u64 = flake >> 22;
        assert(offset_ms < 0x40000000000) by (bit_vector)
            requires
                offset_ms == flake >> 22u64,
        ;
        if epoch_ms <= i64::MAX - (offset_ms as i64) {
            Some(Self::melt(flake, epoch_ms))
        } else {
            None
        }
    }

    /// The template that `format` hands to the strftime engine: the
    /// custom directives of `template` expanded against this value's
    /// fields.
    pub open spec fn expanded_template(self, template: Seq<char>) -> Seq<char> {
        expand_spec(
            template,
            dec_digits(self.data_center as nat),
            dec_digits(self.worker as nat),
            dec_digits(self.sequence as nat),
        )
    }

    /// Renders this value through `template` in the timezone named
    /// `tz_name`: the custom `%^d` / `%^w` / `%^s` directives are
    /// expanded first, outside any `%%` escape and without rescanning
    /// inserted text, and the result goes verbatim to the strftime
    /// engine. `None` exactly when the timezone name is unknown, the
    /// timestamp is outside the engine's range, or the engine refuses
    /// the expanded template.
    pub fn format(&self, template: &str, tz_name: &str) -> (r: Option<String>)
        ensures
            (r is Some) == (tz_known(tz_name@) && millis_in_datetime_range(self.timestamp_ms as int)
                && strftime_ok(
                self.timestamp_ms as int,
                self.expanded_template(template@),
                tz_name@,
            )),
            r matches Some(s) ==> s@ == strftime_render(
                self.timestamp_ms as int,
                self.expanded_template(template@),
                tz_name@,
            ),
    {
        let chars = str_to_chars(template);
        let expanded = expand_template(&chars, self.data_center, self.worker, self.sequence);
        let expanded_str = chars_to_string(&expanded);
        render_strftime(self.timestamp_ms, expanded_str.as_str(), tz_name)
    }
}

/// Expanding a template a second time against the same decoded value
/// changes nothing: the digits that `%^d`, `%^w` and `%^s` insert are
/// never themselves read as directives.
pub proof fn lemma_expanded_template_idempotent(p: SnowflakeParts, template: Seq<char>)
    ensures
        p.expanded_template(p.expanded_template(template)) == p.expanded_template(template),
{
    crate::template::lemma_dec_digits_decimal(p.data_center as nat);
    crate::template::lemma_dec_digits_decimal(p.worker as nat);
    crate::template::lemma_dec_digits_decimal(p.sequence as nat);
    crate::template::lemma_expand_idempotent(
        template,
        dec_digits(p.data_center as nat),
        dec_digits(p.worker as nat),
        dec_digits(p.sequence as nat),
    );
}

/// The bit slices of `melted` are the mod / div decomposition of the
/// flake, and together they reconstruct its low 22 bits exactly:
/// `sequence + worker * 4096 + data_center * 131072 == flake mod 2^22`.
pub proof fn lemma_round_trip_bit_extraction(flake: u64)
    ensures
        flake & 0xfff == flake % 4096,
        (flake >> 12) & 0x1f == (flake / 4096) % 32,
        (flake >> 17) & 0x1f == (flake / 4096 / 32) % 32,
        (flake & 0xfff) + ((flake >> 12) & 0x1f) * 4096 + ((flake >> 17) & 0x1f) * 131072
            == flake % 4194304,
{
    assert(flake & 0xfff == flake % 4096) by (bit_vector);
    assert((flake >> 12u64) & 0x1f == (flake / 4096) % 32) by (bit_vector);
    assert((flake >> 17u64) & 0x1f == (flake / 4096 / 32) % 32) by (bit_vector);
    assert((flake & 0xfff) + ((flake >> 12u64) & 0x1f) * 4096 + ((flake >> 17u64) & 0x1f) * 131072
        == flake % 4194304) by (bit_vector);
}

} // verus!
