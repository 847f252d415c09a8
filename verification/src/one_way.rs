//! The one-way tool, which rewrites entity chunks and player files with a
//! one-way table of UUIDs and counts each UUID met: its options, the record
//! of players found in a world, the reading of its table and the renaming
//! of player files.
use std::collections::HashMap;
use vstd::prelude::*;
use vstd::string::*;
use crate::chunk::tally;
use crate::players::{parse_uuid, parsed_uuid};
use crate::uuid_text::{hyphenated, uuid_hyphenated};

verus! {

broadcast use vstd::std_specs::hash::group_hash_axioms;

/// Options of the one-way tool.
#[derive(Debug, Clone)]
pub struct Args {
    /// The world directory.
    pub world: String,
    /// The JSON file of UUID pairs.
    pub map: String,
    /// Only look, write nothing.
    pub dry: bool,
    /// Do not warn when `dry` is off.
    pub no_backup_warning: bool,
    /// Leave block (region) files alone.
    pub ignore_region: bool,
    /// Leave entity files alone.
    pub ignore_entities: bool,
    /// Leave point-of-interest files alone.
    pub ignore_poi: bool,
    /// Leave player files alone.
    pub ignore_player: bool,
}

/// A world or server directory, with the player UUIDs found in it.
#[derive(Debug, Clone)]
pub struct App {
    pub dir: String,
    pub uuids: HashMap<u128, ()>,
}

impl App {
    /// A directory with no player found yet.
    pub fn new(path: &str) -> (r: Self)
        ensures
            r.dir@ == path@,
            r.uuids@ == Map::<u128, ()>::empty(),
    {
        App { dir: path.to_owned(), uuids: HashMap::new() }
    }

    /// Records the players `found`.
    pub fn record_uuids(&mut self, found: &Vec<u128>)
        ensures
            final(self).dir == old(self).dir,
            forall|x: u128|
                #[trigger] final(self).uuids@.contains_key(x) <==> (old(self).uuids@.contains_key(x) || found@.contains(x)),
    {
        let mut i: usize = 0;
        while i < found.len()
            invariant
                i <= found@.len(),
                self.dir == old(self).dir,
                forall|x: u128|
                    #[trigger] self.uuids@.contains_key(x) <==> (old(self).uuids@.contains_key(x) || exists|j: int|
                        0 <= j < i && found@[j] == x),
            decreases found@.len() - i,
        {
            let ghost before = self.uuids@;
            self.uuids.insert(found[i], ());
            proof {
                assert forall|x: u128| #[trigger] self.uuids@.contains_key(x) <==> (old(self).uuids@.contains_key(x)
                    || exists|j: int| 0 <= j < i + 1 && found@[j] == x) by {
                    if x == found@[i as int] {
                        assert(found@[i as int] == x);
                    } else if exists|j: int| 0 <= j < i + 1 && found@[j] == x {
                        let j = choose|j: int| 0 <= j < i + 1 && found@[j] == x;
                        assert(j < i);
                        assert(before.contains_key(x));
                    }
                }
            }
            i = i + 1;
        }
        assert forall|x: u128| #[trigger] self.uuids@.contains_key(x) <==> (old(self).uuids@.contains_key(x)
            || found@.contains(x)) by {
            if found@.contains(x) {
                let j = choose|j: int| 0 <= j < found@.len() && found@[j] == x;
                assert(self.uuids@.contains_key(x));
            }
        }
    }
}


/// The pairs `ps[..n]` all spell UUIDs on both sides.
pub open spec fn pairs_parse(ps: Seq<(String, String)>, n: int) -> bool {
    forall|i: int|
        0 <= i < n ==> (#[trigger] parsed_uuid(ps[i].0@)) is Some && parsed_uuid(ps[i].1@) is Some
}

/// The one-way map of the UUIDs spelled by `ps[..n]`, a later pair of the
/// same key replacing an earlier one.
pub open spec fn parsed_pairs_map(ps: Seq<(String, String)>, n: int) -> Map<u128, u128>
    decreases n,
{
    if n <= 0 {
        Map::empty()
    } else {
        parsed_pairs_map(ps, n - 1).insert(parsed_uuid(ps[n - 1].0@)->0, parsed_uuid(ps[n - 1].1@)->0)
    }
}

/// `s` is the first text of `ps` (of each pair the key first) that spells
/// no UUID.
pub open spec fn first_unparsed(ps: Seq<(String, String)>, s: Seq<char>) -> bool {
    exists|i: int|
        #![trigger ps[i]]
        0 <= i < ps.len() && pairs_parse(ps, i) && if parsed_uuid(ps[i].0@) is None {
            s == ps[i].0@
        } else {
            parsed_uuid(ps[i].1@) is None && s == ps[i].1@
        }
}

/// The one-way map of the text pairs `pairs` (old UUID, new UUID), or the
/// first text that spells no UUID.
pub fn parse_uuid_pairs(pairs: &Vec<(String, String)>) -> (r: Result<HashMap<u128, u128>, String>)
    ensures
        match r {
            Ok(m) => pairs_parse(pairs@, pairs@.len() as int) && m@ == parsed_pairs_map(pairs@, pairs@.len() as int),
            Err(s) => !pairs_parse(pairs@, pairs@.len() as int) && first_unparsed(pairs@, s@),
        },
{
    let mut out: HashMap<u128, u128> = HashMap::new();
    let mut i: usize = 0;
    while i < pairs.len()
        invariant
            i <= pairs@.len(),
            pairs_parse(pairs@, i as int),
            out@ == parsed_pairs_map(pairs@, i as int),
        decreases pairs@.len() - i,
    {
        let key = match parse_uuid(pairs[i].0.as_str()) {
            Some(k) => k,
            None => {
                assert(first_unparsed(pairs@, pairs@[i as int].0@));
                return Err(pairs[i].0.clone());
            },
        };
        let value = match parse_uuid(pairs[i].1.as_str()) {
            Some(v) => v,
            None => {
                assert(first_unparsed(pairs@, pairs@[i as int].1@));
                return Err(pairs[i].1.clone());
            },
        };
        out.insert(key, value);
        i = i + 1;
    }
    Ok(out)
}

/// The view of an optional extension.
pub open spec fn extension_view(extension: Option<&str>) -> Option<Seq<char>> {
    match extension {
        Some(e) => Some(e@),
        None => None,
    }
}

/// The file name of the player file of `v`: its hyphenated form, then the
/// extension, if any, after a dot.
pub open spec fn player_file_name(v: u128, extension: Option<Seq<char>>) -> Seq<char> {
    match extension {
        Some(e) => hyphenated(v) + "."@ + e,
        None => hyphenated(v),
    }
}

/// The new name of a player file whose stem `stem` spells a UUID that
/// `map` holds, with the extension kept; that UUID is then counted once
/// more in `find`. `Ok(None)` (and `find` untouched) for any other file;
/// `Err` (and `find` untouched) where the count would pass `u32::MAX`.
pub fn transfer_name(
    stem: &str,
    extension: Option<&str>,
    map: &HashMap<u128, u128>,
    find: &mut HashMap<u128, u32>,
) -> (r: Result<Option<String>, ()>)
    ensures
        ({
            let p = parsed_uuid(stem@);
            if p is Some && map@.contains_key(p->0) {
                let u = p->0;
                let c = tally(old(find)@, u);
                match r {
                    Ok(o) => c < u32::MAX && final(find)@ == old(find)@.insert(u, (c + 1) as u32) && o is Some
                        && o->0@ == player_file_name(map@[u], extension_view(extension)),
                    Err(_) => c == u32::MAX && final(find)@ == old(find)@,
                }
            } else {
                r == Ok::<Option<String>, ()>(None) && final(find)@ == old(find)@
            }
        }),
{
    let u = match parse_uuid(stem) {
        Some(u) => u,
        None => return Ok(None),
    };
    let new_uuid = match map.get(&u) {
        Some(n) => *n,
        None => return Ok(None),
    };
    let count: u32 = match find.get(&u) {
        Some(c) => *c,
        None => 0,
    };
    if count == u32::MAX {
        return Err(());
    }
    find.insert(u, count + 1);
    let mut name = uuid_hyphenated(new_uuid);
    match extension {
        Some(e) => {
            name.append(".");
            name.append(e);
        },
        None => {},
    }
    Ok(Some(name))
}


/// The string table that a JSON text holds, when it is a JSON object whose
/// values are all strings (a later entry of the same key replacing an
/// earlier one).
pub uninterp spec fn json_string_table(text: Seq<char>) -> Option<Map<Seq<char>, Seq<char>>>;

/// `ps` lists the entries of the table `t`, each key once.
pub open spec fn lists_table(t: Map<Seq<char>, Seq<char>>, ps: Seq<(String, String)>) -> bool {
    &&& forall|i: int| 0 <= i < ps.len() ==> #[trigger] t.contains_key(ps[i].0@) && t[ps[i].0@] == ps[i].1@
    &&& forall|k: Seq<char>| #[trigger] t.contains_key(k) ==> exists|i: int| 0 <= i < ps.len() && ps[i].0@ == k
    &&& forall|i: int, j: int| 0 <= i < ps.len() && 0 <= j < ps.len() && i != j ==> #[trigger] ps[i].0@ != #[trigger] ps[j].0@
}

/// The entries of the JSON object of strings `text`, or the parser's
/// message when it is none.
///
/// Trusted: `serde_json::from_str::<HashMap<String, String>>`, its entries
/// then listed in the order in which the map is walked; which table a text
/// holds is named, not described.
#[verifier::external_body]
fn json_string_pairs(text: &str) -> (r: Result<Vec<(String, String)>, String>)
    ensures
        r is Ok <==> json_string_table(text@) is Some,
        r matches Ok(ps) ==> lists_table(json_string_table(text@)->0, ps@),
{
    serde_json::from_str::<HashMap<String, String>>(text).map(|m| m.into_iter().collect()).map_err(|e| e.to_string())
}

/// `m` is the one-way table that the JSON text `text` holds: the text is an
/// object of strings, and its entries, listed in some order, all spell
/// UUIDs and make up `m`.
pub open spec fn table_holds(text: Seq<char>, m: Map<u128, u128>) -> bool {
    exists|ps: Seq<(String, String)>|
        #![trigger lists_table(json_string_table(text)->0, ps)]
        json_string_table(text) is Some && lists_table(json_string_table(text)->0, ps) && pairs_parse(
            ps,
            ps.len() as int,
        ) && m == parsed_pairs_map(ps, ps.len() as int)
}

/// `s` is the first key or value that spells no UUID, in some listing of
/// the entries of the JSON object of strings `text`.
pub open spec fn bad_uuid_in_table(text: Seq<char>, s: Seq<char>) -> bool {
    exists|ps: Seq<(String, String)>|
        #![trigger lists_table(json_string_table(text)->0, ps)]
        json_string_table(text) is Some && lists_table(json_string_table(text)->0, ps) && first_unparsed(ps, s)
}

/// Why a one-way table was refused.
#[derive(Debug, PartialEq, Eq)]
pub enum UuidTableError {
    /// The text is no JSON object of strings; the parser's message.
    NotJson(String),
    /// The first key or value that spells no UUID.
    BadUuid(String),
}

/// The one-way table that the JSON text `text` holds: an object whose keys
/// (old UUIDs) and values (new UUIDs) are strings.
pub fn parse_uuid_table(text: &str) -> (r: Result<HashMap<u128, u128>, UuidTableError>)
    ensures
        match r {
            Ok(m) => table_holds(text@, m@),
            Err(UuidTableError::NotJson(_)) => json_string_table(text@) is None,
            Err(UuidTableError::BadUuid(s)) => bad_uuid_in_table(text@, s@),
        },
{
    let pairs = match json_string_pairs(text) {
        Ok(ps) => ps,
        Err(e) => return Err(UuidTableError::NotJson(e)),
    };
    match parse_uuid_pairs(&pairs) {
        Ok(m) => {
            assert(lists_table(json_string_table(text@)->0, pairs@));
            assert(table_holds(text@, m@));
            Ok(m)
        },
        Err(s) => {
            assert(lists_table(json_string_table(text@)->0, pairs@));
            assert(bad_uuid_in_table(text@, s@));
            Err(UuidTableError::BadUuid(s))
        },
    }
}

} // verus!
