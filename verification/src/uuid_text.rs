//! The textual forms of a UUID, and the search patterns and replacements
//! that swap them in text.
use vstd::prelude::*;
use crate::text::{ascii_upper_seq, remove_hyphens, to_ascii_upper, without_hyphens};

verus! {

/// `16^k`.
pub open spec fn pow16(k: nat) -> nat
    decreases k,
{
    if k == 0 {
        1
    } else {
        16 * pow16((k - 1) as nat)
    }
}

/// Hex digit `i` (0 is the most significant) of the 128-bit value `v`.
pub open spec fn hex_digit(v: u128, i: int) -> int {
    (v as int / pow16((31 - i) as nat) as int) % 16
}

/// The lower-case hex character for the digit `d`.
pub open spec fn lower_hex_char(d: int) -> char {
    if d < 10 {
        (('0' as int) + d) as char
    } else {
        (('a' as int) + d - 10) as char
    }
}

/// The 32 lower-case hex digits of `v`, most significant first.
pub open spec fn lower_hex(v: u128) -> Seq<char> {
    Seq::new(32, |i: int| lower_hex_char(hex_digit(v, i)))
}

/// The hyphenated lower-case form of a UUID, `8-4-4-4-12` hex digits, such
/// as `9db4226c-1015-40da-8fa5-4335aab896b6`.
pub open spec fn hyphenated(v: u128) -> Seq<char> {
    let h = lower_hex(v);
    h.subrange(0, 8) + seq!['-'] + h.subrange(8, 12) + seq!['-'] + h.subrange(12, 16) + seq!['-']
        + h.subrange(16, 20) + seq!['-'] + h.subrange(20, 32)
}

/// Form `k` of a UUID as it may be written in text: hyphenated lower-case,
/// hyphenated upper-case, bare lower-case, bare upper-case.
pub open spec fn uuid_form(v: u128, k: int) -> Seq<char> {
    if k == 0 {
        hyphenated(v)
    } else if k == 1 {
        ascii_upper_seq(hyphenated(v))
    } else if k == 2 {
        without_hyphens(hyphenated(v))
    } else {
        without_hyphens(ascii_upper_seq(hyphenated(v)))
    }
}

/// The views of a list of strings.
pub open spec fn views(ss: Seq<String>) -> Seq<Seq<char>> {
    ss.map_values(|s: String| s@)
}

/// The hyphenated lower-case form of the UUID `v`, as the `uuid` crate
/// writes it.
///
/// Trusted: `uuid::Uuid::from_u128` and `uuid::Uuid`'s `Display`, which
/// writes the 32 lower-case hex digits in groups of 8, 4, 4, 4 and 12
/// joined by hyphens.
#[verifier::external_body]
pub(crate) fn uuid_hyphenated(v: u128) -> (r: String)
    ensures
        r@ == hyphenated(v),
{
    uuid::Uuid::from_u128(v).to_string()
}

/// The four textual forms of `from` as search patterns, and those of `to`
/// as their replacements, form by form.
pub fn uuid_variants(from: u128, to: u128) -> (r: (Vec<String>, Vec<String>))
    ensures
        r.0@.len() == 4,
        r.1@.len() == 4,
        forall|k: int| 0 <= k < 4 ==> #[trigger] r.0@[k]@ == uuid_form(from, k) && r.1@[k]@ == uuid_form(to, k),
{
    let from_hyphen = uuid_hyphenated(from);
    let from_upper = to_ascii_upper(from_hyphen.as_str());
    let from_bare = remove_hyphens(from_hyphen.as_str());
    let from_bare_u = remove_hyphens(from_upper.as_str());

    let to_hyphen = uuid_hyphenated(to);
    let to_upper = to_ascii_upper(to_hyphen.as_str());
    let to_bare = remove_hyphens(to_hyphen.as_str());
    let to_bare_u = remove_hyphens(to_upper.as_str());

    let mut patterns: Vec<String> = Vec::new();
    patterns.push(from_hyphen);
    patterns.push(from_upper);
    patterns.push(from_bare);
    patterns.push(from_bare_u);
    let mut replacements: Vec<String> = Vec::new();
    replacements.push(to_hyphen);
    replacements.push(to_upper);
    replacements.push(to_bare);
    replacements.push(to_bare_u);
    (patterns, replacements)
}

/// The patterns and replacements for the given entries, as given: for the
/// entry `(from, to)` at position `i`, positions `4 i .. 4 i + 4` hold the
/// four forms of `from` and of `to`. No reverse direction is added; pass
/// both directions to swap.
pub fn uuid_map_variants(map: &Vec<(u128, u128)>) -> (r: (Vec<String>, Vec<String>))
    requires
        map@.len() * 4 <= usize::MAX,
    ensures
        r.0@.len() == 4 * map@.len(),
        r.1@.len() == 4 * map@.len(),
        forall|n: int| 0 <= n < r.0@.len() ==> #[trigger] r.0@[n]@ == uuid_form(map@[n / 4].0, n % 4),
        forall|n: int| 0 <= n < r.1@.len() ==> #[trigger] r.1@[n]@ == uuid_form(map@[n / 4].1, n % 4),
{
    let mut patterns: Vec<String> = Vec::new();
    let mut replacements: Vec<String> = Vec::new();
    let mut i: usize = 0;
    while i < map.len()
        invariant
            i <= map@.len(),
            map@.len() * 4 <= usize::MAX,
            patterns@.len() == 4 * i,
            replacements@.len() == 4 * i,
            forall|n: int| 0 <= n < patterns@.len() ==> #[trigger] patterns@[n]@ == uuid_form(map@[n / 4].0, n % 4),
            forall|n: int| 0 <= n < replacements@.len() ==> #[trigger] replacements@[n]@ == uuid_form(map@[n / 4].1, n % 4),
        decreases map@.len() - i,
    {
        let (from, to) = map[i];
        let (p, r) = uuid_variants(from, to);
        let ghost p0 = patterns@;
        let ghost r0 = replacements@;
        let mut p2 = p;
        let mut r2 = r;
        let ghost p = p2@;
        let ghost rr = r2@;
        patterns.append(&mut p2);
        replacements.append(&mut r2);
        proof {
            assert forall|n: int|
                0 <= n < patterns@.len() implies #[trigger] patterns@[n]@ == uuid_form(map@[n / 4].0, n % 4)
                    && replacements@[n]@ == uuid_form(map@[n / 4].1, n % 4) by {
                if n < 4 * i {
                    assert(patterns@[n] == p0[n]);
                    assert(replacements@[n] == r0[n]);
                } else {
                    assert(n / 4 == i as int);
                    assert(patterns@[n] == p[n - 4 * i]);
                    assert(replacements@[n] == rr[n - 4 * i]);
                }
            }
            assert forall|n: int| 0 <= n < replacements@.len() implies #[trigger] replacements@[n]@ == uuid_form(
                map@[n / 4].1,
                n % 4,
            ) by {
                assert(patterns@[n]@ == uuid_form(map@[n / 4].0, n % 4));
            }
        }
        i = i + 1;
    }
    (patterns, replacements)
}

} // verus!
