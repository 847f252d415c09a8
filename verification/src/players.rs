//! Finding the players of a world: the UUIDs that name its player files.
use vstd::prelude::*;
use crate::uuid_text::{hex_digit, hyphenated, lower_hex, lower_hex_char, pow16};

verus! {

/// The value of the hex character `c` (`0`-`9`, `a`-`f`, `A`-`F`).
pub open spec fn hex_char_value(c: char) -> Option<int> {
    if '0' <= c && c <= '9' {
        Some(c as int - '0' as int)
    } else if 'a' <= c && c <= 'f' {
        Some(c as int - 'a' as int + 10)
    } else if 'A' <= c && c <= 'F' {
        Some(c as int - 'A' as int + 10)
    } else {
        None
    }
}

/// Every character of `h` is a hex character.
pub open spec fn all_hex(h: Seq<char>) -> bool {
    forall|i: int| 0 <= i < h.len() ==> (#[trigger] hex_char_value(h[i])) is Some
}

/// The number that the hex characters `h` spell, most significant first.
pub open spec fn hex_number(h: Seq<char>) -> int
    decreases h.len(),
{
    if h.len() == 0 {
        0
    } else {
        hex_number(h.drop_last()) * 16 + hex_char_value(h.last())->0
    }
}

/// The 32 digits of a hyphenated form: 36 characters with hyphens at
/// positions 8, 13, 18 and 23, the hyphens left out.
pub open spec fn hyphenated_digits(s: Seq<char>) -> Option<Seq<char>> {
    if s.len() == 36 && s[8] == '-' && s[13] == '-' && s[18] == '-' && s[23] == '-' {
        Some(s.subrange(0, 8) + s.subrange(9, 13) + s.subrange(14, 18) + s.subrange(19, 23) + s.subrange(24, 36))
    } else {
        None
    }
}

/// `c` with an ASCII upper-case letter turned lower-case.
pub open spec fn ascii_lower(c: char) -> char {
    if 'A' <= c && c <= 'Z' {
        ((c as u32) + 32) as char
    } else {
        c
    }
}

/// `a` and `b` are equal up to ASCII case.
pub open spec fn eq_ignore_ascii_case(a: Seq<char>, b: Seq<char>) -> bool {
    a.len() == b.len() && forall|i: int| 0 <= i < a.len() ==> ascii_lower(#[trigger] a[i]) == ascii_lower(b[i])
}

/// The 32 digits of a UUID written in `s`: bare (32 characters),
/// hyphenated (36), hyphenated in braces (38) or hyphenated after an
/// `urn:uuid:` prefix in any case (45); anything else writes none.
pub open spec fn uuid_digits(s: Seq<char>) -> Option<Seq<char>> {
    if s.len() == 32 {
        Some(s)
    } else if s.len() == 36 {
        hyphenated_digits(s)
    } else if s.len() == 38 && s[0] == '{' && s[37] == '}' {
        hyphenated_digits(s.subrange(1, 37))
    } else if s.len() == 45 && eq_ignore_ascii_case(s.subrange(0, 9), "urn:uuid:"@) {
        hyphenated_digits(s.subrange(9, 45))
    } else {
        None
    }
}

/// The UUID that `s` spells, if it spells one: its 32 digits, all hex,
/// read as one number.
pub open spec fn parsed_uuid(s: Seq<char>) -> Option<u128> {
    match uuid_digits(s) {
        Some(h) => if all_hex(h) {
            Some(hex_number(h) as u128)
        } else {
            None
        },
        None => None,
    }
}

/// The UUID that `s` spells.
///
/// Trusted: `uuid::Uuid::try_parse` (then `as_u128`). Its grammar is the
/// one that `parsed_uuid` states: a string of the right length with a
/// byte that is not ASCII fails there as it fails here; the 16 bytes that
/// the digits decode to are read big-endian.
#[verifier::external_body]
pub(crate) fn parse_uuid(s: &str) -> (r: Option<u128>)
    ensures
        r == parsed_uuid(s@),
{
    uuid::Uuid::try_parse(s).ok().map(|u| u.as_u128())
}

/// The UUIDs spelled by the first `n` names, each kept at its first
/// occurrence.
pub open spec fn player_uuids(names: Seq<Seq<char>>, n: int) -> Seq<u128>
    decreases n,
{
    if n <= 0 {
        Seq::empty()
    } else {
        let prev = player_uuids(names, n - 1);
        match parsed_uuid(names[n - 1]) {
            Some(u) => if prev.contains(u) { prev } else { prev.push(u) },
            None => prev,
        }
    }
}

/// Whether `v` holds `x`.
fn holds(v: &Vec<u128>, x: u128) -> (r: bool)
    ensures
        r == v@.contains(x),
{
    let mut i: usize = 0;
    while i < v.len()
        invariant
            i <= v@.len(),
            forall|j: int| 0 <= j < i ==> v@[j] != x,
        decreases v@.len() - i,
    {
        if v[i] == x {
            return true;
        }
        i = i + 1;
    }
    false
}

/// The UUIDs that the file-name prefixes `names` spell (names that spell
/// none are passed over), each once, in the order first met.
pub fn collect_player_uuids(names: &Vec<String>) -> (r: Vec<u128>)
    ensures
        r@ == player_uuids(names@.map_values(|s: String| s@), names@.len() as int),
        r@.no_duplicates(),
{
    let ghost views = names@.map_values(|s: String| s@);
    let mut uuids: Vec<u128> = Vec::new();
    let mut i: usize = 0;
    while i < names.len()
        invariant
            i <= names@.len(),
            views == names@.map_values(|s: String| s@),
            uuids@ == player_uuids(views, i as int),
            uuids@.no_duplicates(),
        decreases names@.len() - i,
    {
        assert(views[i as int] == names@[i as int]@);
        if let Some(u) = parse_uuid(names[i].as_str()) {
            if !holds(&uuids, u) {
                uuids.push(u);
            }
        }
        i = i + 1;
    }
    uuids
}


proof fn lemma_players_prefix(names: Seq<Seq<char>>, n: int)
    requires
        0 <= n <= names.len(),
    ensures
        forall|u: u128| #[trigger] player_uuids(names, n).contains(u) <==> exists|i: int|
            0 <= i < n && parsed_uuid(names[i]) == Some(u),
        player_uuids(names, n).no_duplicates(),
    decreases n,
{
    if n > 0 {
        lemma_players_prefix(names, n - 1);
        let prev = player_uuids(names, n - 1);
        assert forall|u: u128| #[trigger] player_uuids(names, n).contains(u) <==> exists|i: int|
            0 <= i < n && parsed_uuid(names[i]) == Some(u) by {
            if player_uuids(names, n).contains(u) {
                if prev.contains(u) {
                    let i = choose|i: int| 0 <= i < n - 1 && parsed_uuid(names[i]) == Some(u);
                    assert(0 <= i < n && parsed_uuid(names[i]) == Some(u));
                } else {
                    let k = choose|k: int| 0 <= k < player_uuids(names, n).len() && player_uuids(names, n)[k] == u;
                    assert(parsed_uuid(names[n - 1]) == Some(u));
                }
            }
            if exists|i: int| 0 <= i < n && parsed_uuid(names[i]) == Some(u) {
                let i = choose|i: int| 0 <= i < n && parsed_uuid(names[i]) == Some(u);
                if i < n - 1 {
                    assert(prev.contains(u));
                    match parsed_uuid(names[n - 1]) {
                        Some(w) => {
                            if !prev.contains(w) {
                                let k = choose|k: int| 0 <= k < prev.len() && prev[k] == u;
                                assert(prev.push(w)[k] == u);
                            }
                        },
                        None => {},
                    }
                } else {
                    if !prev.contains(u) {
                        assert(prev.push(u)[prev.len() as int] == u);
                    }
                }
            }
        }
    }
}

/// Among the first `n` names, one spells `x` before any spells `y`.
pub open spec fn spelled_before(names: Seq<Seq<char>>, x: u128, y: u128, n: int) -> bool {
    exists|i: int|
        #![trigger names[i]]
        0 <= i < n && parsed_uuid(names[i]) == Some(x) && forall|j: int|
            0 <= j <= i ==> parsed_uuid(#[trigger] names[j]) != Some(y)
}

proof fn lemma_spelled_before_grows(names: Seq<Seq<char>>, x: u128, y: u128, n: int, m: int)
    requires
        n <= m,
        spelled_before(names, x, y, n),
    ensures
        spelled_before(names, x, y, m),
{
}

#[verifier::rlimit(30)]
proof fn lemma_players_order(names: Seq<Seq<char>>, n: int)
    requires
        0 <= n <= names.len(),
    ensures
        forall|a: int, b: int|
            0 <= a < b < player_uuids(names, n).len() ==> #[trigger] spelled_before(
                names,
                player_uuids(names, n)[a],
                player_uuids(names, n)[b],
                n,
            ),
    decreases n,
{
    if n > 0 {
        lemma_players_order(names, n - 1);
        lemma_players_prefix(names, n - 1);
        let prev = player_uuids(names, n - 1);
        let cur = player_uuids(names, n);
        assert(prev.len() <= cur.len() && forall|k: int| 0 <= k < prev.len() ==> cur[k] == prev[k]);
        assert forall|a: int, b: int| 0 <= a < b < cur.len() implies #[trigger] spelled_before(names, cur[a], cur[b], n) by {
            if b < prev.len() {
                assert(spelled_before(names, prev[a], prev[b], n - 1));
                lemma_spelled_before_grows(names, prev[a], prev[b], n - 1, n);
            } else {
                let u = cur[b];
                let x = prev[a];
                assert(!prev.contains(u));
                assert(prev.contains(x));
                let i = choose|i: int| 0 <= i < n - 1 && parsed_uuid(names[i]) == Some(x);
                assert forall|j: int| 0 <= j <= i implies parsed_uuid(#[trigger] names[j]) != Some(u) by {
                    if parsed_uuid(names[j]) == Some(u) {
                        assert(exists|k: int| 0 <= k < n - 1 && parsed_uuid(names[k]) == Some(u));
                    }
                }
                assert(spelled_before(names, x, u, n));
            }
        }
    }
}

/// The players come out in the order in which the names first spell them:
/// of two players found, the earlier is spelled by some name before any
/// name spells the later.
pub proof fn lemma_players_in_order(names: Seq<Seq<char>>)
    ensures
        forall|a: int, b: int|
            0 <= a < b < player_uuids(names, names.len() as int).len() ==> #[trigger] spelled_before(
                names,
                player_uuids(names, names.len() as int)[a],
                player_uuids(names, names.len() as int)[b],
                names.len() as int,
            ),
{
    lemma_players_order(names, names.len() as int);
}

/// Every name that spells a UUID contributes it, and nothing else is found:
/// a UUID is among the players found in `names` exactly when some name
/// spells it, and each is found once.
pub proof fn lemma_players_found(names: Seq<Seq<char>>)
    ensures
        forall|u: u128| #[trigger] player_uuids(names, names.len() as int).contains(u) <==> exists|i: int|
            0 <= i < names.len() && parsed_uuid(names[i]) == Some(u),
        player_uuids(names, names.len() as int).no_duplicates(),
{
    lemma_players_prefix(names, names.len() as int);
}

proof fn lemma_pow16_positive(k: nat)
    ensures
        pow16(k) > 0,
    decreases k,
{
    if k > 0 {
        lemma_pow16_positive((k - 1) as nat);
    }
}

/// The first `n` lower-case hex digits of `v` spell `v / 16^(32 - n)`.
#[verifier::spinoff_prover]
proof fn lemma_hex_prefix(v: u128, n: int)
    requires
        0 <= n <= 32,
    ensures
        hex_number(lower_hex(v).take(n)) == v as int / pow16((32 - n) as nat) as int,
    decreases n,
{
    let h = lower_hex(v);
    if n == 0 {
        assert(h.take(0) =~= Seq::<char>::empty());
        assert(pow16(32) == 0x1_0000_0000_0000_0000_0000_0000_0000_0000) by {
            reveal_with_fuel(pow16, 33);
        }
    } else {
        lemma_hex_prefix(v, n - 1);
        assert(h.take(n).drop_last() =~= h.take(n - 1));
        let k = (32 - n) as nat;
        lemma_pow16_positive(k);
        let p = pow16(k) as int;
        assert(pow16((k + 1) as nat) == 16 * pow16(k));
        let x = v as int / p;
        let d = x % 16;
        assert(hex_digit(v, n - 1) == d);
        assert(0 <= d < 16) by {
            vstd::arithmetic::div_mod::lemma_mod_bound(x, 16);
        }
        assert(hex_char_value(lower_hex_char(d)) == Some(d));
        vstd::arithmetic::div_mod::lemma_div_denominator(v as int, p, 16);
        assert(v as int / pow16((k + 1) as nat) as int == x / 16) by {
            vstd::arithmetic::mul::lemma_mul_is_commutative(p, 16);
        }
        vstd::arithmetic::div_mod::lemma_fundamental_div_mod(x, 16);
        assert(hex_number(h.take(n)) == (x / 16) * 16 + d);
        assert(x == 16 * (x / 16) + d);
    }
}

/// The hyphenated form of a UUID, as the tables are written, spells that
/// UUID again: a table written out reads back with the same UUIDs.
pub proof fn lemma_hyphenated_parses(v: u128)
    ensures
        parsed_uuid(hyphenated(v)) == Some(v),
{
    let h = lower_hex(v);
    let s = hyphenated(v);
    assert(s.len() == 36);
    assert(s[8] == '-' && s[13] == '-' && s[18] == '-' && s[23] == '-');
    assert(s.subrange(0, 8) + s.subrange(9, 13) + s.subrange(14, 18) + s.subrange(19, 23) + s.subrange(24, 36) =~= h);
    assert forall|i: int| 0 <= i < h.len() implies (#[trigger] hex_char_value(h[i])) is Some by {
        let d = hex_digit(v, i);
        assert(0 <= d < 16) by {
            vstd::arithmetic::div_mod::lemma_mod_bound(v as int / pow16((31 - i) as nat) as int, 16);
        }
    }
    assert(hyphenated_digits(s) == Some(h));
    assert(uuid_digits(s) == Some(h));
    assert(all_hex(h));
    lemma_hex_prefix(v, 32);
    assert(h.take(32) =~= h);
    assert(pow16(0) == 1);
    assert(v as int / 1 == v as int) by (nonlinear_arith);
    assert(hex_number(h.take(32)) == v as int);
    assert(hex_number(h) == v as int);
}

} // verus!
