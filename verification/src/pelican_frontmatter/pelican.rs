//! The raw, Pelican-style side of the frontmatter: a block of `key: value`
//! lines parsed into a field mapping, with case preserved as found.

use vstd::prelude::*;

use crate::fields::{entries_insert, entries_map, entries_sorted, vec_insert_entry};
use crate::text::{find_char, find_idx, lemma_find_idx, trim, trimmed};
use super::ApfError;

verus! {

/// One raw line split at its first colon: the key is everything before the
/// colon (not trimmed), the value is the trimmed remainder. A line without a
/// colon is a key with an empty value.
pub open spec fn parse_line(line: Seq<char>) -> (Seq<char>, Seq<char>) {
    match find_idx(line, ':') {
        Some(i) => (line.take(i), trimmed(line.skip(i + 1))),
        None => (line, Seq::<char>::empty()),
    }
}

/// The raw fields a block of lines yields, processed in order with mapping
/// semantics: a later line with a key equal to an earlier one overwrites it.
pub open spec fn parse_entries(lines: Seq<Seq<char>>) -> Seq<(Seq<char>, Seq<char>)>
    decreases lines.len(),
{
    if lines.len() == 0 {
        Seq::empty()
    } else {
        let kv = parse_line(lines.last());
        entries_insert(parse_entries(lines.drop_last()), kv.0, kv.1)
    }
}

/// A raw frontmatter block: field names mapped to raw string values, kept in
/// ascending key order.
#[derive(Debug, PartialEq)]
pub struct FrontMatter {
    pub fields: Vec<(String, String)>,
}

impl View for FrontMatter {
    type V = Seq<(Seq<char>, Seq<char>)>;

    open spec fn view(&self) -> Seq<(Seq<char>, Seq<char>)> {
        self.fields.deep_view()
    }
}

impl FrontMatter {
    /// The keys stand in strictly ascending order.
    pub open spec fn wf(self) -> bool {
        entries_sorted(self@)
    }

    /// The mapping from field names to raw values that this block carries.
    pub open spec fn model(self) -> Map<Seq<char>, Seq<char>> {
        entries_map(self@)
    }

    pub fn new() -> (r: FrontMatter)
        ensures
            r@ == Seq::<(Seq<char>, Seq<char>)>::empty(),
            r.wf(),
    {
        let fields: Vec<(String, String)> = Vec::new();
        proof {
            assert(fields.deep_view() =~= Seq::<(Seq<char>, Seq<char>)>::empty());
        }
        FrontMatter { fields }
    }

    /// Insert with mapping semantics: an equal key overwrites its old value.
    pub fn insert(&mut self, key: String, value: String)
        requires
            old(self).wf(),
        ensures
            final(self)@ == entries_insert(old(self)@, key@, value@),
            final(self).wf(),
            final(self).model() == old(self).model().insert(key@, value@),
    {
        vec_insert_entry(&mut self.fields, key, value);
    }
}

/// Parse a block of raw frontmatter lines. Never fails: any sequence of
/// lines, including none at all, yields a field mapping.
pub fn parse_front_matter(src: &[String]) -> (r: Result<FrontMatter, ApfError>)
    ensures
        r is Ok,
        r matches Ok(fm) ==> fm@ == parse_entries(src.deep_view()) && fm.wf(),
{
    let ghost dv = src.deep_view();
    let n = src.len();
    let mut fm = FrontMatter::new();
    let mut idx: usize = 0;
    proof {
        assert(dv.take(0) =~= Seq::<Seq<char>>::empty());
        assert(dv.len() == src@.len());
    }
    while idx < n
        invariant
            idx <= n,
            n == src@.len(),
            dv == src.deep_view(),
            dv.len() == n,
            fm.wf(),
            fm@ == parse_entries(dv.take(idx as int)),
        decreases n - idx,
    {
        let line = vstd::slice::slice_index_get(src, idx);
        proof {
            assert(dv[idx as int] == src@[idx as int].deep_view());
        }
        let sref = line.as_str();
        let m = sref.unicode_len();
        match find_char(sref, ':') {
            Some(i) => {
                proof {
                    lemma_find_idx(sref@, ':');
                }
                let key = sref.substring_char(0, i).to_owned();
                let value = trim(sref.substring_char(i + 1, m)).to_owned();
                proof {
                    assert(sref@.subrange(0, i as int) =~= sref@.take(i as int));
                    assert(sref@.subrange(i as int + 1, m as int) =~= sref@.skip(i as int + 1));
                    assert(parse_line(dv[idx as int]) == (key@, value@));
                }
                fm.insert(key, value);
            },
            None => {
                let key = sref.to_owned();
                let value = String::new();
                proof {
                    assert(parse_line(dv[idx as int]) == (key@, value@));
                }
                fm.insert(key, value);
            },
        }
        proof {
            assert(dv.take(idx as int + 1).drop_last() =~= dv.take(idx as int));
            assert(dv.take(idx as int + 1).last() == dv[idx as int]);
        }
        idx = idx + 1;
    }
    proof {
        assert(dv.take(n as int) =~= dv);
    }
    Ok(fm)
}

} // verus!
