//! Writing the swap table as commented JSONC, one pair per entry, with the
//! players' names where they are known.
use std::collections::HashMap;
use vstd::prelude::*;
use vstd::string::*;
use crate::map::{SymBiMap, lists_each_pair_once};
use crate::uuid_text::{hex_digit, hyphenated, lower_hex, uuid_hyphenated};

verus! {

broadcast use vstd::std_specs::hash::group_hash_axioms;

/// What is known of a player.
#[derive(Debug, Clone)]
pub struct PlayerData {
    pub avatar: Option<String>,
    pub name: String,
    pub mode: String,
}

/// How a UUID is labelled in a comment: `name[mode]` of its player, or
/// `<anonymous>`.
pub open spec fn player_label(names: Map<u128, PlayerData>, u: u128) -> Seq<char> {
    if names.contains_key(u) {
        names[u].name@ + "["@ + names[u].mode@ + "]"@
    } else {
        "<anonymous>"@
    }
}

/// The line break that separates pair `i` from the one before.
pub open spec fn pair_sep(i: int) -> Seq<char> {
    if i != 0 { "\n"@ } else { Seq::empty() }
}

/// The comment naming the players of `(l, r)`, when either is known.
pub open spec fn pair_comment(l: u128, r: u128, names: Map<u128, PlayerData>) -> Seq<char> {
    if names.contains_key(l) || names.contains_key(r) {
        "\n    // "@ + player_label(names, l) + " <-> "@ + player_label(names, r)
    } else {
        Seq::empty()
    }
}

/// The `"l": "r"` line of a pair.
pub open spec fn pair_entry(l: u128, r: u128) -> Seq<char> {
    "\n    \""@ + hyphenated(l) + "\": \""@ + hyphenated(r) + "\""@
}

/// The comma after all but the last of `len` pairs.
pub open spec fn pair_comma(i: int, len: int) -> Seq<char> {
    if i < len - 1 { ","@ } else { Seq::empty() }
}

/// The text written for pair `i` of `ps`: a blank line before all but the
/// first, a comment naming the players when either is known, and the
/// `"a": "b"` entry, with a comma after all but the last.
pub open spec fn pair_text(ps: Seq<(u128, u128)>, i: int, names: Map<u128, PlayerData>) -> Seq<char> {
    pair_sep(i) + pair_comment(ps[i].0, ps[i].1, names) + pair_entry(ps[i].0, ps[i].1) + pair_comma(i, ps.len() as int)
}

/// The text of the first `n` pairs.
pub open spec fn pairs_text(ps: Seq<(u128, u128)>, n: int, names: Map<u128, PlayerData>) -> Seq<char>
    decreases n,
{
    if n <= 0 {
        Seq::empty()
    } else {
        pairs_text(ps, n - 1, names) + pair_text(ps, n - 1, names)
    }
}

/// The whole JSONC document for the pairs `ps`.
pub open spec fn jsonc_text(ps: Seq<(u128, u128)>, names: Map<u128, PlayerData>) -> Seq<char> {
    "{"@ + pairs_text(ps, ps.len() as int, names) + "\n}"@
}

/// White space between JSON tokens.
pub open spec fn json_space(c: char) -> bool {
    c == ' ' || c == '\n' || c == '\t' || c == '\r'
}

/// What a JSON reader sees of JSONC text `s`: its `//` comments, each up
/// to the end of its line, and its white space left out. `in_comment`
/// says whether `s` starts inside a comment.
pub open spec fn json_view(s: Seq<char>, in_comment: bool) -> Seq<char>
    decreases s.len(),
{
    if s.len() == 0 {
        Seq::empty()
    } else if in_comment {
        json_view(s.drop_first(), s[0] != '\n')
    } else if s[0] == '/' && s.len() >= 2 && s[1] == '/' {
        json_view(s.subrange(2, s.len() as int), true)
    } else if json_space(s[0]) {
        json_view(s.drop_first(), false)
    } else {
        seq![s[0]] + json_view(s.drop_first(), false)
    }
}

/// `s` without its white space.
pub open spec fn unspaced(s: Seq<char>) -> Seq<char>
    decreases s.len(),
{
    if s.len() == 0 {
        Seq::empty()
    } else if json_space(s[0]) {
        unspaced(s.drop_first())
    } else {
        seq![s[0]] + unspaced(s.drop_first())
    }
}

/// The JSON member `"l":"r"` of a pair, with no white space.
pub open spec fn json_member(l: u128, r: u128) -> Seq<char> {
    seq!['"'] + hyphenated(l) + seq!['"', ':', '"'] + hyphenated(r) + seq!['"']
}

/// The members of the first `n` pairs of `ps`, separated by commas.
pub open spec fn json_members(ps: Seq<(u128, u128)>, n: int) -> Seq<char>
    decreases n,
{
    if n <= 0 {
        Seq::empty()
    } else if n == 1 {
        json_member(ps[0].0, ps[0].1)
    } else {
        json_members(ps, n - 1) + seq![','] + json_member(ps[n - 1].0, ps[n - 1].1)
    }
}

/// The JSON object holding the pairs `ps`, written with no white space.
pub open spec fn json_object(ps: Seq<(u128, u128)>) -> Seq<char> {
    seq!['{'] + json_members(ps, ps.len() as int) + seq!['}']
}

proof fn lemma_hyphenated_plain(v: u128)
    ensures
        forall|i: int| 0 <= i < hyphenated(v).len() ==> hyphenated(v)[i] != '/' && !json_space(#[trigger] hyphenated(v)[i]),
{
    let h = lower_hex(v);
    assert forall|i: int| 0 <= i < 32 implies h[i] != '/' && !json_space(#[trigger] h[i]) by {
        let d = hex_digit(v, i);
        assert(0 <= d < 16);
    }
}

proof fn lemma_unspaced_add(a: Seq<char>, b: Seq<char>)
    ensures
        unspaced(a + b) == unspaced(a) + unspaced(b),
    decreases a.len(),
{
    if a.len() == 0 {
        assert(a + b =~= b);
    } else {
        assert((a + b).drop_first() =~= a.drop_first() + b);
        lemma_unspaced_add(a.drop_first(), b);
        assert(seq![a[0]] + (unspaced(a.drop_first()) + unspaced(b)) =~= (seq![a[0]] + unspaced(a.drop_first()))
            + unspaced(b));
    }
}

proof fn lemma_unspaced_plain(a: Seq<char>)
    requires
        forall|i: int| 0 <= i < a.len() ==> !json_space(#[trigger] a[i]),
    ensures
        unspaced(a) == a,
    decreases a.len(),
{
    if a.len() > 0 {
        assert forall|i: int| 0 <= i < a.drop_first().len() implies !json_space(#[trigger] a.drop_first()[i]) by {
            assert(a.drop_first()[i] == a[i + 1]);
        }
        lemma_unspaced_plain(a.drop_first());
        assert(seq![a[0]] + a.drop_first() =~= a);
    }
}

/// Text with no `/` is read as itself without its white space.
proof fn lemma_view_plain(p: Seq<char>, rest: Seq<char>)
    requires
        forall|i: int| 0 <= i < p.len() ==> #[trigger] p[i] != '/',
    ensures
        json_view(p + rest, false) == unspaced(p) + json_view(rest, false),
    decreases p.len(),
{
    if p.len() == 0 {
        assert(p + rest =~= rest);
    } else {
        assert((p + rest)[0] == p[0]);
        assert((p + rest).drop_first() =~= p.drop_first() + rest);
        assert forall|i: int| 0 <= i < p.drop_first().len() implies #[trigger] p.drop_first()[i] != '/' by {
            assert(p.drop_first()[i] == p[i + 1]);
        }
        lemma_view_plain(p.drop_first(), rest);
        if !json_space(p[0]) {
            assert(seq![p[0]] + (unspaced(p.drop_first()) + json_view(rest, false)) =~= (seq![p[0]] + unspaced(
                p.drop_first(),
            )) + json_view(rest, false));
        }
    }
}

/// A comment runs to the end of its line: what follows `t` inside a
/// comment, from a line break on, is read as if the comment were not there.
proof fn lemma_view_comment(t: Seq<char>, rest: Seq<char>)
    requires
        forall|i: int| 0 <= i < t.len() ==> #[trigger] t[i] != '\n',
        rest.len() > 0,
        rest[0] == '\n',
    ensures
        json_view(t + rest, true) == json_view(rest, false),
    decreases t.len(),
{
    if t.len() == 0 {
        assert(t + rest =~= rest);
        assert(json_view(rest, true) == json_view(rest.drop_first(), false));
        assert(json_view(rest, false) == json_view(rest.drop_first(), false));
    } else {
        assert((t + rest)[0] == t[0]);
        assert((t + rest).drop_first() =~= t.drop_first() + rest);
        assert forall|i: int| 0 <= i < t.drop_first().len() implies #[trigger] t.drop_first()[i] != '\n' by {
            assert(t.drop_first()[i] == t[i + 1]);
        }
        lemma_view_comment(t.drop_first(), rest);
    }
}

/// No player name or game mode holds a line break, so that a comment
/// naming players stays on its line.
pub open spec fn one_line_names(names: Map<u128, PlayerData>) -> bool {
    forall|u: u128| #[trigger] names.contains_key(u) ==> !names[u].name@.contains('\n') && !names[u].mode@.contains('\n')
}

proof fn lemma_label_one_line(names: Map<u128, PlayerData>, u: u128)
    requires
        one_line_names(names),
    ensures
        forall|i: int| 0 <= i < player_label(names, u).len() ==> #[trigger] player_label(names, u)[i] != '\n',
{
    reveal_strlit("[");
    reveal_strlit("]");
    reveal_strlit("<anonymous>");
    if names.contains_key(u) {
        let n = names[u].name@;
        let m = names[u].mode@;
        assert forall|i: int| 0 <= i < player_label(names, u).len() implies #[trigger] player_label(names, u)[i] != '\n' by {
            if i < n.len() {
                assert(player_label(names, u)[i] == n[i]);
            } else if i == n.len() {
            } else if i < n.len() + 1 + m.len() {
                assert(player_label(names, u)[i] == m[i - n.len() - 1]);
            }
        }
    }
}

proof fn lemma_no_slash(a: Seq<char>, b: Seq<char>)
    requires
        forall|i: int| 0 <= i < a.len() ==> #[trigger] a[i] != '/',
        forall|i: int| 0 <= i < b.len() ==> #[trigger] b[i] != '/',
    ensures
        forall|i: int| 0 <= i < (a + b).len() ==> #[trigger] (a + b)[i] != '/',
{
    assert forall|i: int| 0 <= i < (a + b).len() implies #[trigger] (a + b)[i] != '/' by {
        if i >= a.len() {
            assert((a + b)[i] == b[i - a.len()]);
        }
    }
}

proof fn lemma_no_break(a: Seq<char>, b: Seq<char>)
    requires
        forall|i: int| 0 <= i < a.len() ==> #[trigger] a[i] != '\n',
        forall|i: int| 0 <= i < b.len() ==> #[trigger] b[i] != '\n',
    ensures
        forall|i: int| 0 <= i < (a + b).len() ==> #[trigger] (a + b)[i] != '\n',
{
    assert forall|i: int| 0 <= i < (a + b).len() implies #[trigger] (a + b)[i] != '\n' by {
        if i >= a.len() {
            assert((a + b)[i] == b[i - a.len()]);
        }
    }
}

/// The `"l": "r"` line of a pair reads as its JSON member.
proof fn lemma_view_entry(l: u128, r: u128, rest: Seq<char>)
    ensures
        json_view(pair_entry(l, r) + rest, false) == json_member(l, r) + json_view(rest, false),
{
    reveal_strlit("\n    \"");
    reveal_strlit("\": \"");
    reveal_strlit("\"");
    let a = seq!['\n', ' ', ' ', ' ', ' ', '"'];
    let b = seq!['"', ':', ' ', '"'];
    let c = seq!['"'];
    assert("\n    \""@ =~= a);
    assert("\": \""@ =~= b);
    assert("\""@ =~= c);
    let hl = hyphenated(l);
    let hr = hyphenated(r);
    lemma_hyphenated_plain(l);
    lemma_hyphenated_plain(r);
    assert(pair_entry(l, r) =~= a + hl + b + hr + c);
    lemma_no_slash(a, hl);
    lemma_no_slash(a + hl, b);
    lemma_no_slash(a + hl + b, hr);
    lemma_no_slash(a + hl + b + hr, c);
    lemma_view_plain(pair_entry(l, r), rest);
    lemma_unspaced_add(a + hl + b + hr, c);
    lemma_unspaced_add(a + hl + b, hr);
    lemma_unspaced_add(a + hl, b);
    lemma_unspaced_add(a, hl);
    lemma_unspaced_plain(hl);
    lemma_unspaced_plain(hr);
    reveal_with_fuel(unspaced, 7);
    assert(unspaced(a) =~= seq!['"']);
    assert(unspaced(b) =~= seq!['"', ':', '"']);
    assert(unspaced(c) =~= c);
    assert(unspaced(pair_entry(l, r)) =~= json_member(l, r));
}

/// The text of pair `i` reads as its JSON member, followed by the comma
/// that separates it from the next.
proof fn lemma_view_pair(ps: Seq<(u128, u128)>, i: int, names: Map<u128, PlayerData>, rest: Seq<char>)
    requires
        0 <= i < ps.len(),
        one_line_names(names),
    ensures
        json_view(pair_text(ps, i, names) + rest, false) == json_member(ps[i].0, ps[i].1) + (if i < ps.len() - 1 {
            seq![',']
        } else {
            Seq::empty()
        }) + json_view(rest, false),
{
    reveal_strlit("\n");
    reveal_strlit(",");
    let (l, r) = ps[i];
    let sep = pair_sep(i);
    let cm = pair_comment(l, r, names);
    let en = pair_entry(l, r);
    let co = pair_comma(i, ps.len() as int);
    let co_seq: Seq<char> = if i < ps.len() - 1 { seq![','] } else { Seq::empty() };
    assert(co =~= co_seq);
    assert(pair_text(ps, i, names) + rest =~= sep + (cm + (en + (co + rest))));
    // the comma
    assert forall|k: int| 0 <= k < co.len() implies #[trigger] co[k] != '/' by {}
    lemma_view_plain(co, rest);
    reveal_with_fuel(unspaced, 2);
    assert(unspaced(co) =~= co_seq);
    // the entry
    lemma_view_entry(l, r, co + rest);
    // the comment
    let y = en + (co + rest);
    reveal_strlit("\n    \"");
    assert("\n    \""@ =~= seq!['\n', ' ', ' ', ' ', ' ', '"']);
    assert(y[0] == '\n');
    if names.contains_key(l) || names.contains_key(r) {
        reveal_strlit("\n    // ");
        reveal_strlit(" <-> ");
        let pre = seq!['\n', ' ', ' ', ' ', ' '];
        let t = seq![' '] + player_label(names, l) + seq![' ', '<', '-', '>', ' '] + player_label(names, r);
        assert("\n    // "@ =~= pre + seq!['/', '/', ' ']);
        assert(" <-> "@ =~= seq![' ', '<', '-', '>', ' ']);
        assert(cm =~= pre + (seq!['/', '/'] + t));
        lemma_label_one_line(names, l);
        lemma_label_one_line(names, r);
        lemma_no_break(seq![' '], player_label(names, l));
        lemma_no_break(seq![' '] + player_label(names, l), seq![' ', '<', '-', '>', ' ']);
        lemma_no_break(seq![' '] + player_label(names, l) + seq![' ', '<', '-', '>', ' '], player_label(names, r));
        lemma_view_comment(t, y);
        let z = (seq!['/', '/'] + t) + y;
        assert(z.subrange(2, z.len() as int) =~= t + y);
        assert(json_view(z, false) == json_view(t + y, true));
        assert forall|k: int| 0 <= k < pre.len() implies #[trigger] pre[k] != '/' by {}
        lemma_view_plain(pre, z);
        assert(unspaced(pre) =~= Seq::<char>::empty()) by {
            reveal_with_fuel(unspaced, 6);
        }
        assert(cm + y =~= pre + z);
        assert(json_view(cm + y, false) == json_view(y, false));
    } else {
        assert(cm + y =~= y);
    }
    // the line break before the pair
    assert forall|k: int| 0 <= k < sep.len() implies #[trigger] sep[k] != '/' by {}
    lemma_view_plain(sep, cm + y);
    assert(unspaced(sep) =~= Seq::<char>::empty()) by {
        reveal_with_fuel(unspaced, 2);
    }
    assert(json_member(l, r) + unspaced(co) + json_view(rest, false) =~= json_member(l, r) + (unspaced(co)
        + json_view(rest, false)));
}

proof fn lemma_view_pairs(ps: Seq<(u128, u128)>, n: int, names: Map<u128, PlayerData>, rest: Seq<char>)
    requires
        1 <= n <= ps.len(),
        one_line_names(names),
    ensures
        json_view(pairs_text(ps, n, names) + rest, false) == json_members(ps, n) + (if n < ps.len() {
            seq![',']
        } else {
            Seq::empty()
        }) + json_view(rest, false),
    decreases n,
{
    let p = pair_text(ps, n - 1, names);
    lemma_view_pair(ps, n - 1, names, rest);
    if n == 1 {
        assert(pairs_text(ps, 1, names) + rest =~= p + rest);
    } else {
        lemma_view_pairs(ps, n - 1, names, p + rest);
        assert(pairs_text(ps, n, names) + rest =~= pairs_text(ps, n - 1, names) + (p + rest));
        let tail: Seq<char> = if n < ps.len() { seq![','] } else { Seq::empty() };
        assert(json_members(ps, n - 1) + seq![','] + (json_member(ps[n - 1].0, ps[n - 1].1) + tail + json_view(
            rest,
            false,
        )) =~= json_members(ps, n) + tail + json_view(rest, false));
    }
}

/// The exported document is a JSON object once its `//` comments and its
/// white space are read past: in braces, the members `"a":"b"` of the
/// listed pairs, one per pair, separated by commas (so a JSON reader reads
/// back exactly those pairs). This holds whenever no player name or mode
/// holds a line break.
pub proof fn lemma_export_is_json(ps: Seq<(u128, u128)>, names: Map<u128, PlayerData>)
    requires
        one_line_names(names),
    ensures
        json_view(jsonc_text(ps, names), false) == json_object(ps),
{
    reveal_strlit("{");
    reveal_strlit("\n}");
    let open = seq!['{'];
    let close = seq!['\n', '}'];
    assert("{"@ =~= open);
    assert("\n}"@ =~= close);
    let body = pairs_text(ps, ps.len() as int, names);
    assert(jsonc_text(ps, names) =~= open + (body + close));
    assert forall|k: int| 0 <= k < open.len() implies #[trigger] open[k] != '/' by {}
    assert forall|k: int| 0 <= k < close.len() implies #[trigger] close[k] != '/' by {}
    lemma_view_plain(open, body + close);
    lemma_view_plain(close, Seq::empty());
    assert(close + Seq::<char>::empty() =~= close);
    reveal_with_fuel(unspaced, 3);
    assert(unspaced(open) =~= open);
    assert(unspaced(close) =~= seq!['}']);
    assert(json_view(Seq::<char>::empty(), false) =~= Seq::<char>::empty());
    if ps.len() == 0 {
        assert(body =~= Seq::<char>::empty());
        assert(body + close =~= close);
        assert(json_object(ps) =~= seq!['{', '}']);
    } else {
        lemma_view_pairs(ps, ps.len() as int, names, close);
    }
    assert(json_view(jsonc_text(ps, names), false) =~= json_object(ps));
}

/// The label of `u` in a comment.
fn label(names: &HashMap<u128, PlayerData>, u: u128) -> (r: String)
    ensures
        r@ == player_label(names@, u),
{
    match names.get(&u) {
        Some(p) => {
            let mut s = p.name.clone();
            s.append("[");
            s.append(p.mode.as_str());
            s.append("]");
            s
        },
        None => String::from_str("<anonymous>"),
    }
}

/// The comment naming the players of `(l, r)`.
fn comment_text(l: u128, r: u128, names: &HashMap<u128, PlayerData>) -> (s: String)
    ensures
        s@ == pair_comment(l, r, names@),
{
    if names.contains_key(&l) || names.contains_key(&r) {
        let mut s = String::from_str("\n    // ");
        s.append(label(names, l).as_str());
        s.append(" <-> ");
        s.append(label(names, r).as_str());
        s
    } else {
        String::new()
    }
}

/// The `"l": "r"` line of a pair.
fn entry_text(l: u128, r: u128) -> (s: String)
    ensures
        s@ == pair_entry(l, r),
{
    let mut s = String::from_str("\n    \"");
    s.append(uuid_hyphenated(l).as_str());
    s.append("\": \"");
    s.append(uuid_hyphenated(r).as_str());
    s.append("\"");
    s
}

/// The swap table as a JSONC document: each pair once (in the order in
/// which the table is walked), with a comment naming the two players when
/// either is known.
pub fn export_jsonc(uuid_map: &SymBiMap<u128>, names: &HashMap<u128, PlayerData>) -> (r: String)
    requires
        uuid_map.wf(),
    ensures
        exists|ps: Seq<(u128, u128)>| lists_each_pair_once(uuid_map@, ps) && r@ == jsonc_text(ps, names@),
        one_line_names(names@) ==> exists|ps: Seq<(u128, u128)>|
            lists_each_pair_once(uuid_map@, ps) && json_view(r@, false) == json_object(ps),
{
    let ps = uuid_map.pairs();
    let mut out = String::from_str("{");
    let mut i: usize = 0;
    while i < ps.len()
        invariant
            i <= ps@.len(),
            out@ == "{"@ + pairs_text(ps@, i as int, names@),
        decreases ps@.len() - i,
    {
        let (l, r) = ps[i];
        let ghost before = out@;
        let sep = if i != 0 { String::from_str("\n") } else { String::new() };
        let comma = if i < ps.len() - 1 { String::from_str(",") } else { String::new() };
        let comment = comment_text(l, r, names);
        let entry = entry_text(l, r);
        out.append(sep.as_str());
        out.append(comment.as_str());
        out.append(entry.as_str());
        out.append(comma.as_str());
        proof {
            assert(out@ =~= before + pair_text(ps@, i as int, names@));
        }
        i = i + 1;
    }
    out.append("\n}");
    proof {
        if one_line_names(names@) {
            lemma_export_is_json(ps@, names@);
        }
    }
    out
}

} // verus!
