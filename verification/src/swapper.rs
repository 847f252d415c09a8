//! `UuidSwapper`: a UUID swap table together with the text automaton built
//! from it, ready to swap UUIDs in text, NBT trees and file contents.
use vstd::prelude::*;
use crate::map::SymBiMap;
use crate::nbt::{Compound, compound_swapped, swap_in_compound};
use crate::swap::{
    matcher_builds, matcher_patterns, matcher_replace_all, new_matcher, occurs_in, replaced_all, standard_matcher,
};
use crate::uuid_text::{uuid_form, uuid_map_variants, views};

verus! {

/// `es` lists the entries of `m`, each once: as many as `m` has, each an
/// entry of `m`, every entry of `m` among them.
pub open spec fn lists_entries(m: Map<u128, u128>, es: Seq<(u128, u128)>) -> bool {
    &&& es.len() == m.dom().len()
    &&& forall|i: int| 0 <= i < es.len() ==> #[trigger] m.contains_key(es[i].0) && m[es[i].0] == es[i].1
    &&& forall|k: u128| #[trigger] m.contains_key(k) ==> es.contains((k, m[k]))
}

/// The search patterns for the entries `es`: the four textual forms of each
/// entry's first UUID, entry by entry.
pub open spec fn form_patterns(es: Seq<(u128, u128)>) -> Seq<Seq<char>> {
    Seq::new(4 * es.len(), |n: int| uuid_form(es[n / 4].0, n % 4))
}

/// The replacements for the entries `es`: the four textual forms of each
/// entry's second UUID, entry by entry.
pub open spec fn form_replacements(es: Seq<(u128, u128)>) -> Seq<Seq<char>> {
    Seq::new(4 * es.len(), |n: int| uuid_form(es[n / 4].1, n % 4))
}

/// A swap table with the automaton that finds its UUIDs in text.
pub struct UuidSwapper<'a> {
    uuid_map: &'a SymBiMap<u128>,
    ac: aho_corasick::AhoCorasick,
    replacements: Vec<String>,
    entries: Ghost<Seq<(u128, u128)>>,
}

impl<'a> UuidSwapper<'a> {
    /// The swap table.
    pub closed spec fn table(&self) -> Map<u128, u128> {
        self.uuid_map@
    }

    /// The order in which the table's entries were turned into patterns.
    pub closed spec fn entries(&self) -> Seq<(u128, u128)> {
        self.entries@
    }

    /// The patterns that the automaton searches for.
    pub closed spec fn pattern_forms(&self) -> Seq<Seq<char>> {
        matcher_patterns(self.ac)
    }

    /// The replacement of each pattern.
    pub closed spec fn replacement_forms(&self) -> Seq<Seq<char>> {
        views(self.replacements@)
    }

    /// The automaton was built with the crate's defaults.
    pub closed spec fn automaton_standard(&self) -> bool {
        standard_matcher(self.ac)
    }

    /// The automaton searches for every textual form of every UUID of the
    /// table and replaces it by the same form of its partner.
    pub open spec fn wf(&self) -> bool {
        &&& self.automaton_standard()
        &&& lists_entries(self.table(), self.entries())
        &&& self.pattern_forms() == form_patterns(self.entries())
        &&& self.replacement_forms() == form_replacements(self.entries())
    }

    /// Prepares the swap for `uuid_map`: the forms of each entry, in both
    /// directions, become patterns. `None` exactly when the automaton
    /// cannot be built for the patterns of the entries (in the order in
    /// which the table is walked); an empty table always gives a swapper.
    pub fn new(uuid_map: &'a SymBiMap<u128>) -> (r: Option<Self>)
        requires
            uuid_map@.dom().len() * 4 <= usize::MAX,
        ensures
            match r {
                Some(s) => s.wf() && s.table() == uuid_map@ && matcher_builds(s.pattern_forms()),
                None => exists|es: Seq<(u128, u128)>|
                    #![trigger lists_entries(uuid_map@, es)]
                    lists_entries(uuid_map@, es) && !matcher_builds(form_patterns(es)),
            },
            uuid_map@.dom().len() == 0 ==> r is Some,
    {
        let entries = uuid_map.entries();
        let (patterns, replacements) = uuid_map_variants(&entries);
        assert(views(patterns@) =~= form_patterns(entries@));
        assert(lists_entries(uuid_map@, entries@));
        match new_matcher(&patterns) {
            None => None,
            Some(ac) => {
                let s = UuidSwapper { uuid_map, ac, replacements, entries: Ghost(entries@) };
                assert(views(patterns@) =~= form_patterns(entries@));
                assert(views(s.replacements@) =~= form_replacements(entries@));
                Some(s)
            },
        }
    }

    /// `text` with every textual form of a UUID of the table replaced by the
    /// same form of its partner.
    pub fn swap_text(&self, text: &str) -> (r: String)
        requires
            self.wf(),
        ensures
            r@ == replaced_all(self.pattern_forms(), self.replacement_forms(), text@),
            (forall|k: int|
                0 <= k < self.pattern_forms().len() ==> !occurs_in(#[trigger] self.pattern_forms()[k], text@))
                ==> r@ == text@,
    {
        assert(views(self.replacements@).len() == self.replacements@.len());
        matcher_replace_all(&self.ac, text, &self.replacements)
    }

    /// The compound `c` with its UUIDs swapped.
    pub fn swap_compound(&self, c: &Compound) -> (r: Compound)
        requires
            self.wf(),
        ensures
            compound_swapped(*c, r, self.table(), self.pattern_forms(), self.replacement_forms()),
    {
        assert(views(self.replacements@).len() == self.replacements@.len());
        swap_in_compound(c, self.uuid_map, &self.ac, &self.replacements)
    }
}

/// `content` with every textual form of a UUID of `uuid_map` replaced by
/// the same form of its partner. `None` exactly when the automaton cannot
/// be built for the patterns of the table's entries; an empty table leaves
/// the content as it is.
pub fn swap_uuids_in_string(content: &str, uuid_map: &SymBiMap<u128>) -> (r: Option<String>)
    requires
        uuid_map@.dom().len() * 4 <= usize::MAX,
    ensures
        match r {
            Some(s) => exists|es: Seq<(u128, u128)>|
                #![trigger lists_entries(uuid_map@, es)]
                lists_entries(uuid_map@, es) && matcher_builds(form_patterns(es)) && s@ == replaced_all(
                    form_patterns(es),
                    form_replacements(es),
                    content@,
                ),
            None => exists|es: Seq<(u128, u128)>|
                #![trigger lists_entries(uuid_map@, es)]
                lists_entries(uuid_map@, es) && !matcher_builds(form_patterns(es)),
        },
        uuid_map@.dom().len() == 0 ==> (r matches Some(s) && s@ == content@),
{
    match UuidSwapper::new(uuid_map) {
        None => None,
        Some(swapper) => Some(swapper.swap_text(content)),
    }
}

} // verus!
