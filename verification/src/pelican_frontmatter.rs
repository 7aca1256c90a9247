//! Rewriting Pelican-style frontmatter into a YAML frontmatter block.
//!
//! A document starts with a block of `key: value` lines; the first blank line
//! ends the block and the rest is opaque body text. The block is parsed into
//! raw fields ([`pelican`]), the fields are renamed and filtered into their
//! normalized form, and the result is rendered as a `---`-delimited block
//! with the keys in ascending order, followed by the untouched body.

use vstd::prelude::*;

pub mod pelican;

use crate::fields::{
    entries_insert, entries_map, entries_sorted, lemma_entries_insert_keys,
    lemma_entries_insert_map, lemma_entries_insert_sorted, lemma_entries_map_contains,
    lemma_sorted_entries_canonical, vec_insert_entry,
};
use crate::text::{
    lemma_lex_lt_total, lex_lt, lower, lower_char, split_on, str_eq, to_lower, trim, trimmed,
};

verus! {

/// What can go wrong while adapting one file. All four arise at the I/O
/// boundary; the pure transformation itself never fails.
#[derive(Debug)]
pub enum ApfError {
    FailedToOpenSourceFile { arg: String },
    FailedToOpenDestinationFile { arg: String },
    FailedToRead { arg: String },
    FailedToWrite { arg: String },
}

impl ApfError {
    /// The human-readable message for this failure, built from its cause.
    pub fn message(&self) -> (r: String)
        ensures
            r@ == match *self {
                ApfError::FailedToOpenSourceFile { arg } => "Could not open source file because "@
                    + arg@,
                ApfError::FailedToOpenDestinationFile { arg } =>
                    "Could not open destination file because "@ + arg@,
                ApfError::FailedToRead { arg } => "Failed to read because "@ + arg@,
                ApfError::FailedToWrite { arg } => "Failed to write because "@ + arg@,
            },
    {
        match self {
            ApfError::FailedToOpenSourceFile { arg } => String::from_str(
                "Could not open source file because ",
            ).concat(arg.as_str()),
            ApfError::FailedToOpenDestinationFile { arg } => String::from_str(
                "Could not open destination file because ",
            ).concat(arg.as_str()),
            ApfError::FailedToRead { arg } => String::from_str(
                "Failed to read because ",
            ).concat(arg.as_str()),
            ApfError::FailedToWrite { arg } => String::from_str(
                "Failed to write because ",
            ).concat(arg.as_str()),
        }
    }
}

/// A normalized field value: a single string, or an ordered list of strings
/// for the fields that are split on commas.
#[derive(Debug, PartialEq)]
pub enum FrontMatterType {
    Value(String),
    List(Vec<String>),
}

/// The abstract shape of a [`FrontMatterType`], for specifications.
pub enum FieldModel {
    Value(Seq<char>),
    List(Seq<Seq<char>>),
}

impl DeepView for FrontMatterType {
    type V = FieldModel;

    open spec fn deep_view(&self) -> FieldModel {
        match self {
            FrontMatterType::Value(s) => FieldModel::Value(s@),
            FrontMatterType::List(l) => FieldModel::List(l.deep_view()),
        }
    }
}

/// The normalized frontmatter: lower-cased field names mapped to scalar or
/// list values, kept in ascending key order.
#[derive(Debug, PartialEq)]
pub struct FrontMatter {
    pub fields: Vec<(String, FrontMatterType)>,
}

impl View for FrontMatter {
    type V = Seq<(Seq<char>, FieldModel)>;

    open spec fn view(&self) -> Seq<(Seq<char>, FieldModel)> {
        self.fields.deep_view()
    }
}

pub open spec fn key_tags() -> Seq<char> {
    seq!['t', 'a', 'g', 's']
}

pub open spec fn key_category() -> Seq<char> {
    seq!['c', 'a', 't', 'e', 'g', 'o', 'r', 'y']
}

pub open spec fn key_categories() -> Seq<char> {
    seq!['c', 'a', 't', 'e', 'g', 'o', 'r', 'i', 'e', 's']
}

pub open spec fn key_slug() -> Seq<char> {
    seq!['s', 'l', 'u', 'g']
}

/// A comma-separated raw value as a list: split on every comma, each piece
/// trimmed of surrounding white space.
pub open spec fn split_trimmed(v: Seq<char>) -> Seq<Seq<char>> {
    split_on(v, ',').map_values(|p: Seq<char>| trimmed(p))
}

/// How one raw field normalizes: `tags` and `category` become the list fields
/// `tags` and `categories`, `slug` is dropped, and any other field keeps its
/// value under its lower-cased name. Keys are compared after lower-casing.
pub open spec fn normalize_entry(k: Seq<char>, v: Seq<char>) -> Option<(Seq<char>, FieldModel)> {
    let lk = lower(k);
    if lk == key_tags() {
        Some((key_tags(), FieldModel::List(split_trimmed(v))))
    } else if lk == key_category() {
        Some((key_categories(), FieldModel::List(split_trimmed(v))))
    } else if lk == key_slug() {
        None
    } else {
        Some((lk, FieldModel::Value(v)))
    }
}

/// The normalized fields that a sequence of raw fields yields, processed in
/// order with mapping semantics.
pub open spec fn normalize_entries(
    raw: Seq<(Seq<char>, Seq<char>)>,
) -> Seq<(Seq<char>, FieldModel)>
    decreases raw.len(),
{
    if raw.len() == 0 {
        Seq::empty()
    } else {
        let prev = normalize_entries(raw.drop_last());
        match normalize_entry(raw.last().0, raw.last().1) {
            Some(e) => entries_insert(prev, e.0, e.1),
            None => prev,
        }
    }
}

pub proof fn lemma_normalize_entries_sorted(raw: Seq<(Seq<char>, Seq<char>)>)
    ensures
        entries_sorted(normalize_entries(raw)),
    decreases raw.len(),
{
    if raw.len() > 0 {
        lemma_normalize_entries_sorted(raw.drop_last());
        match normalize_entry(raw.last().0, raw.last().1) {
            Some(e) => {
                lemma_entries_insert_sorted(normalize_entries(raw.drop_last()), e.0, e.1);
            },
            None => {},
        }
    }
}

/// The line or lines one field renders to: `key: "value"` for a scalar;
/// for a list a `key:` header line, then one `- "item"` line per element in
/// list order (an empty list leaves a single blank line after the header).
/// Values are wrapped in double quotes verbatim; embedded quotes are not
/// escaped.
pub open spec fn render_field(k: Seq<char>, f: FieldModel) -> Seq<char> {
    match f {
        FieldModel::Value(s) => k + ": \""@ + s + "\"\n"@,
        FieldModel::List(l) => k + ":\n"@ + render_items(l) + if l.len() == 0 {
            "\n"@
        } else {
            Seq::<char>::empty()
        },
    }
}

pub open spec fn render_items(l: Seq<Seq<char>>) -> Seq<char>
    decreases l.len(),
{
    if l.len() == 0 {
        Seq::empty()
    } else {
        render_items(l.drop_last()) + "- \""@ + l.last() + "\"\n"@
    }
}

pub open spec fn render_fields(entries: Seq<(Seq<char>, FieldModel)>) -> Seq<char>
    decreases entries.len(),
{
    if entries.len() == 0 {
        Seq::empty()
    } else {
        render_fields(entries.drop_last()) + render_field(entries.last().0, entries.last().1)
    }
}

/// The full rendered block: `---`, the fields in storage order, `---`, each
/// line ending in a newline.
pub open spec fn render_frontmatter(entries: Seq<(Seq<char>, FieldModel)>) -> Seq<char> {
    "---\n"@ + render_fields(entries) + "---\n"@
}

/// Split an exec string on commas and trim each piece.
fn split_and_trim(v: &str) -> (r: Vec<String>)
    ensures
        r.deep_view() == split_trimmed(v@),
{
    let parts = crate::text::split_str(v, ',');
    let mut out: Vec<String> = Vec::new();
    let n = parts.len();
    let mut i: usize = 0;
    proof {
        assert(out.deep_view() =~= split_on(v@, ',').map_values(
            |p: Seq<char>| trimmed(p),
        ).take(0));
    }
    while i < n
        invariant
            i <= n,
            n == parts@.len(),
            parts.deep_view() == split_on(v@, ','),
            out.deep_view() == split_on(v@, ',').map_values(|p: Seq<char>| trimmed(p)).take(
                i as int,
            ),
        decreases n - i,
    {
        let piece = trim(parts[i].as_str()).to_owned();
        proof {
            assert(parts.deep_view()[i as int] == parts@[i as int]@);
            assert(piece@ == trimmed(split_on(v@, ',')[i as int]));
        }
        let ghost old_dv = out.deep_view();
        out.push(piece);
        proof {
            assert(out.deep_view() =~= old_dv.push(piece@));
            assert(out.deep_view() =~= split_on(v@, ',').map_values(
                |p: Seq<char>| trimmed(p),
            ).take(i as int + 1));
        }
        i = i + 1;
    }
    proof {
        assert(split_trimmed(v@).take(n as int) =~= split_trimmed(v@));
    }
    out
}

impl FrontMatter {
    /// The keys stand in strictly ascending order.
    pub open spec fn wf(self) -> bool {
        entries_sorted(self@)
    }

    /// The mapping from normalized field names to values.
    pub open spec fn model(self) -> Map<Seq<char>, FieldModel> {
        entries_map(self@)
    }

    pub fn new() -> (r: FrontMatter)
        ensures
            r@ == Seq::<(Seq<char>, FieldModel)>::empty(),
            r.wf(),
    {
        let fields: Vec<(String, FrontMatterType)> = Vec::new();
        proof {
            assert(fields.deep_view() =~= Seq::<(Seq<char>, FieldModel)>::empty());
        }
        FrontMatter { fields }
    }

    /// Insert with mapping semantics: an equal key overwrites its old value.
    pub fn insert(&mut self, key: String, value: FrontMatterType)
        requires
            old(self).wf(),
        ensures
            final(self)@ == entries_insert(old(self)@, key@, value.deep_view()),
            final(self).wf(),
            final(self).model() == old(self).model().insert(key@, value.deep_view()),
    {
        vec_insert_entry(&mut self.fields, key, value);
    }

    /// Render this frontmatter as a `---`-delimited YAML block. The fields
    /// appear in storage order, which [`FrontMatter::wf`] keeps ascending by
    /// key; scalars render as `key: "value"`, lists as a `key:` header with
    /// one `- "item"` line per element, in list order.
    pub fn write(&self) -> (r: String)
        ensures
            r@ == render_frontmatter(self@),
    {
        let mut buf = String::new();
        buf.append("---\n");
        let n = self.fields.len();
        let mut i: usize = 0;
        proof {
            assert(self@.take(0) =~= Seq::<(Seq<char>, FieldModel)>::empty());
            assert(buf@ =~= "---\n"@ + render_fields(self@.take(0)));
        }
        while i < n
            invariant
                i <= n,
                n == self.fields@.len(),
                self@.len() == n,
                buf@ == "---\n"@ + render_fields(self@.take(i as int)),
            decreases n - i,
        {
            proof {
                crate::fields::lemma_entry_views(self.fields, i as int);
            }
            match &self.fields[i].1 {
                FrontMatterType::Value(s) => {
                    buf.append(self.fields[i].0.as_str());
                    buf.append(": \"");
                    buf.append(s.as_str());
                    buf.append("\"\n");
                    proof {
                        assert(self@[i as int].1 == FieldModel::Value(s@));
                    }
                },
                FrontMatterType::List(l) => {
                    buf.append(self.fields[i].0.as_str());
                    buf.append(":\n");
                    let m = l.len();
                    let mut j: usize = 0;
                    let ghost pre = buf@;
                    proof {
                        assert(l.deep_view().take(0) =~= Seq::<Seq<char>>::empty());
                        assert(buf@ =~= pre + render_items(l.deep_view().take(0)));
                    }
                    while j < m
                        invariant
                            j <= m,
                            m == l@.len(),
                            l.deep_view().len() == m,
                            buf@ == pre + render_items(l.deep_view().take(j as int)),
                        decreases m - j,
                    {
                        buf.append("- \"");
                        buf.append(l[j].as_str());
                        buf.append("\"\n");
                        proof {
                            assert(l.deep_view()[j as int] == l@[j as int]@);
                            let t = l.deep_view().take(j as int + 1);
                            assert(t.drop_last() =~= l.deep_view().take(j as int));
                            assert(t.last() == l.deep_view()[j as int]);
                        }
                        j = j + 1;
                    }
                    if m == 0 {
                        buf.append("\n");
                    }
                    proof {
                        assert(l.deep_view().take(m as int) =~= l.deep_view());
                        assert(self@[i as int].1 == FieldModel::List(l.deep_view()));
                    }
                },
            }
            proof {
                let t = self@.take(i as int + 1);
                assert(t.drop_last() =~= self@.take(i as int));
                assert(t.last() == self@[i as int]);
                assert(buf@ == "---\n"@ + render_fields(self@.take(i as int + 1)));
            }
            i = i + 1;
        }
        buf.append("---\n");
        proof {
            assert(self@.take(n as int) =~= self@);
        }
        buf
    }

    /// Normalize a raw frontmatter block: rename and filter its fields as
    /// [`normalize_entry`] says, field by field in order.
    pub fn from_pelican(pelican: pelican::FrontMatter) -> (r: FrontMatter)
        ensures
            r@ == normalize_entries(pelican@),
            r.wf(),
    {
        let ghost dv = pelican@;
        let n = pelican.fields.len();
        let mut fm = FrontMatter::new();
        let mut idx: usize = 0;
        proof {
            assert(dv.take(0) =~= Seq::<(Seq<char>, Seq<char>)>::empty());
            assert(dv.len() == pelican.fields@.len());
        }
        while idx < n
            invariant
                idx <= n,
                n == pelican.fields@.len(),
                dv == pelican@,
                dv.len() == n,
                fm.wf(),
                fm@ == normalize_entries(dv.take(idx as int)),
            decreases n - idx,
        {
            proof {
                crate::fields::lemma_entry_views(pelican.fields, idx as int);
            }
            let k = pelican.fields[idx].0.clone();
            let v = pelican.fields[idx].1.clone();
            let lk = to_lower(k.as_str());
            proof {
                reveal_strlit("tags");
                reveal_strlit("category");
                reveal_strlit("categories");
                reveal_strlit("slug");
                assert("tags"@ =~= key_tags());
                assert("category"@ =~= key_category());
                assert("categories"@ =~= key_categories());
                assert("slug"@ =~= key_slug());
            }
            if str_eq(lk.as_str(), "tags") {
                let items = split_and_trim(v.as_str());
                let value = FrontMatterType::List(items);
                proof {
                    assert(value.deep_view() == FieldModel::List(split_trimmed(v@)));
                }
                fm.insert("tags".to_owned(), value);
            } else if str_eq(lk.as_str(), "category") {
                let items = split_and_trim(v.as_str());
                let value = FrontMatterType::List(items);
                proof {
                    assert(value.deep_view() == FieldModel::List(split_trimmed(v@)));
                }
                fm.insert("categories".to_owned(), value);
            } else if str_eq(lk.as_str(), "slug") {
            } else {
                let value = FrontMatterType::Value(v);
                fm.insert(lk, value);
            }
            proof {
                assert(dv.take(idx as int + 1).drop_last() =~= dv.take(idx as int));
                assert(dv.take(idx as int + 1).last() == dv[idx as int]);
            }
            idx = idx + 1;
        }
        proof {
            assert(dv.take(n as int) =~= dv);
        }
        fm
    }
}

/// Rendering is deterministic: two normalized frontmatters that carry the
/// same field mapping render to byte-identical output, whatever order their
/// fields were inserted in. Together with [`FrontMatter::wf`] this pins the
/// output field order to ascending lexicographic key order.
pub proof fn lemma_render_deterministic(a: FrontMatter, b: FrontMatter)
    requires
        a.wf(),
        b.wf(),
        a.model() == b.model(),
    ensures
        a@ == b@,
        render_frontmatter(a@) == render_frontmatter(b@),
{
    lemma_sorted_entries_canonical(a@, b@);
}

/// ASCII lowercasing is idempotent.
pub proof fn lemma_lower_idempotent(s: Seq<char>)
    ensures
        lower(lower(s)) == lower(s),
{
    assert forall|i: int| 0 <= i < s.len() implies lower(lower(s))[i] == lower(s)[i] by {
        assert(lower(s)[i] == lower_char(s[i]));
        assert(lower(lower(s))[i] == lower_char(lower_char(s[i])));
    }
    assert(lower(lower(s)) =~= lower(s));
}

/// A normalized key: already lower-case, never `slug`, never `category`.
pub open spec fn normal_key(k: Seq<char>) -> bool {
    lower(k) == k && k != key_slug() && k != key_category()
}

proof fn lemma_special_keys_normal()
    ensures
        normal_key(key_tags()),
        normal_key(key_categories()),
{
    assert(lower(key_tags()) =~= key_tags());
    assert(lower(key_categories()) =~= key_categories());
    assert(key_tags()[0] != key_slug()[0]);
    assert(key_categories()[0] != key_slug()[0]);
    assert(key_tags().len() != key_category().len());
    assert(key_categories().len() != key_category().len());
}

/// Every key that normalization produces is a normal key; in particular no
/// `slug` field and no `category` field ever survives it.
pub proof fn lemma_normalize_keys_normal(raw: Seq<(Seq<char>, Seq<char>)>)
    ensures
        forall|j: int|
            0 <= j < normalize_entries(raw).len() ==> normal_key(
                #[trigger] normalize_entries(raw)[j].0,
            ),
    decreases raw.len(),
{
    if raw.len() > 0 {
        lemma_normalize_keys_normal(raw.drop_last());
        let prev = normalize_entries(raw.drop_last());
        let k = raw.last().0;
        let v = raw.last().1;
        match normalize_entry(k, v) {
            Some(e) => {
                lemma_special_keys_normal();
                if lower(k) != key_tags() && lower(k) != key_category() {
                    lemma_lower_idempotent(k);
                }
                assert(normal_key(e.0));
                lemma_entries_insert_keys(prev, e.0, e.1);
            },
            None => {},
        }
    }
}

/// Any input that carries a `slug` field loses it: the normalized mapping
/// never contains the key `slug`, whatever the raw fields were.
pub proof fn lemma_normalize_no_slug(raw: Seq<(Seq<char>, Seq<char>)>)
    ensures
        !entries_map(normalize_entries(raw)).contains_key(key_slug()),
{
    lemma_normalize_keys_normal(raw);
    lemma_entries_map_contains(normalize_entries(raw), key_slug());
    if entries_map(normalize_entries(raw)).contains_key(key_slug()) {
        let j = choose|j: int|
            0 <= j < normalize_entries(raw).len() && normalize_entries(raw)[j].0 == key_slug();
        assert(normal_key(normalize_entries(raw)[j].0));
    }
}

/// Items joined back into one comma-separated raw value.
pub open spec fn join_comma(l: Seq<Seq<char>>) -> Seq<char>
    decreases l.len(),
{
    if l.len() == 0 {
        Seq::empty()
    } else if l.len() == 1 {
        l[0]
    } else {
        join_comma(l.drop_last()) + ", "@ + l.last()
    }
}

/// A normalized value flattened back to a raw string: a scalar is itself, a
/// list is its items joined with comma and space.
pub open spec fn flatten_field(f: FieldModel) -> Seq<char> {
    match f {
        FieldModel::Value(s) => s,
        FieldModel::List(l) => join_comma(l),
    }
}

/// Normalized fields re-keyed as raw input again, values flattened.
pub open spec fn rekeyed(m: Seq<(Seq<char>, FieldModel)>) -> Seq<(Seq<char>, Seq<char>)> {
    m.map_values(|e: (Seq<char>, FieldModel)| (e.0, flatten_field(e.1)))
}

/// Appending a fresh field to an entry sequence inserts it into the mapping.
proof fn lemma_entries_map_snoc<VM>(s: Seq<(Seq<char>, VM)>, e: (Seq<char>, VM))
    requires
        forall|j: int| 0 <= j < s.len() ==> (#[trigger] s[j]).0 != e.0,
    ensures
        entries_map(s.push(e)) =~= entries_map(s).insert(e.0, e.1),
    decreases s.len(),
{
    if s.len() == 0 {
        let ee = s.push(e).drop_first();
        assert(ee =~= Seq::<(Seq<char>, VM)>::empty());
        assert(entries_map(ee) =~= Map::<Seq<char>, VM>::empty());
        assert(s.push(e)[0] == e);
        assert(entries_map(s) =~= Map::<Seq<char>, VM>::empty());
    } else {
        assert forall|j: int| 0 <= j < s.drop_first().len() implies (#[trigger] s.drop_first()[j]).0
            != e.0 by {
            assert(s.drop_first()[j] == s[j + 1]);
        }
        lemma_entries_map_snoc(s.drop_first(), e);
        assert(s.push(e).drop_first() =~= s.drop_first().push(e));
        assert(s.push(e)[0] == s[0]);
        assert(s[0].0 != e.0);
        assert(entries_map(s.push(e)) =~= entries_map(s.drop_first().push(e)).insert(s[0].0, s[0].1));
        assert(entries_map(s.push(e)) =~= entries_map(s.drop_first()).insert(e.0, e.1).insert(
            s[0].0,
            s[0].1,
        ));
    }
}

/// Normalization is idempotent on its own output: re-keying normalized
/// fields as raw input and normalizing again yields exactly the same field
/// set (`slug` stays dropped, since it never appears), and every scalar
/// field other than `tags` keeps its value unchanged.
pub proof fn lemma_normalize_idempotent_normal(m: Seq<(Seq<char>, FieldModel)>)
    requires
        entries_sorted(m),
        forall|j: int| 0 <= j < m.len() ==> normal_key((#[trigger] m[j]).0),
    ensures
        entries_map(normalize_entries(rekeyed(m))).dom() =~= entries_map(m).dom(),
        forall|k: Seq<char>|
            entries_map(m).dom().contains(k) && k != key_tags() && entries_map(m)[k] is Value
                ==> entries_map(normalize_entries(rekeyed(m)))[k] == entries_map(m)[k],
    decreases m.len(),
{
    if m.len() == 0 {
        assert(rekeyed(m) =~= Seq::<(Seq<char>, Seq<char>)>::empty());
        assert(entries_map(normalize_entries(rekeyed(m))).dom() =~= entries_map(m).dom());
    } else {
        let t = m.drop_last();
        let e = m.last();
        let k0 = e.0;
        assert forall|i: int, j: int| 0 <= i < j < t.len() implies lex_lt(t[i].0, t[j].0) by {
            assert(t[i] == m[i] && t[j] == m[j]);
        }
        assert forall|j: int| 0 <= j < t.len() implies normal_key((#[trigger] t[j]).0) by {
            assert(t[j] == m[j]);
        }
        lemma_normalize_idempotent_normal(t);
        // the last key is fresh: every earlier key lies strictly below it
        assert forall|j: int| 0 <= j < t.len() implies (#[trigger] t[j]).0 != k0 by {
            assert(t[j] == m[j]);
            assert(lex_lt(m[j].0, k0));
            lemma_lex_lt_total(m[j].0, k0);
        }
        assert(t.push(e) =~= m);
        lemma_entries_map_snoc(t, e);
        assert(entries_map(m) =~= entries_map(t).insert(k0, e.1));
        // one normalization step on the re-keyed last field inserts key k0
        assert(rekeyed(m).drop_last() =~= rekeyed(t));
        assert(rekeyed(m).last() == (k0, flatten_field(e.1)));
        assert(normal_key(k0));
        lemma_special_keys_normal();
        let fv = flatten_field(e.1);
        let ne = normalize_entry(k0, fv);
        let nk = ne->Some_0;
        assert(ne is Some && nk.0 == k0);
        let val = nk.1;
        assert(normalize_entries(rekeyed(m)) == entries_insert(
            normalize_entries(rekeyed(t)),
            k0,
            val,
        ));
        lemma_entries_insert_map(normalize_entries(rekeyed(t)), k0, val);
        assert(entries_map(normalize_entries(rekeyed(m))).dom() =~= entries_map(m).dom());
        assert forall|k: Seq<char>|
            entries_map(m).dom().contains(k) && k != key_tags() && entries_map(m)[k] is Value
            implies entries_map(normalize_entries(rekeyed(m)))[k] == entries_map(m)[k] by {
            if k == k0 {
                assert(entries_map(m)[k0] == e.1);
                assert(fv == e.1->Value_0);
                assert(val == FieldModel::Value(fv));
            } else {
                assert(entries_map(m)[k] == entries_map(t)[k]);
                assert(entries_map(t).dom().contains(k));
            }
        }
    }
}

/// Index of the first blank line, if any.
pub open spec fn first_blank(lines: Seq<Seq<char>>) -> Option<int>
    decreases lines.len(),
{
    if lines.len() == 0 {
        None
    } else if lines[0].len() == 0 {
        Some(0int)
    } else {
        match first_blank(lines.drop_first()) {
            Some(i) => Some(i + 1),
            None => None,
        }
    }
}

pub proof fn lemma_first_blank_is(lines: Seq<Seq<char>>, i: int)
    requires
        0 <= i < lines.len(),
        lines[i].len() == 0,
        forall|j: int| 0 <= j < i ==> lines[j].len() != 0,
    ensures
        first_blank(lines) == Some(i),
    decreases lines.len(),
{
    if i > 0 {
        assert(lines.drop_first()[i - 1] == lines[i]);
        assert forall|j: int| 0 <= j < i - 1 implies lines.drop_first()[j].len() != 0 by {
            assert(lines.drop_first()[j] == lines[j + 1]);
        }
        lemma_first_blank_is(lines.drop_first(), i - 1);
    }
}

pub proof fn lemma_first_blank_none(lines: Seq<Seq<char>>)
    requires
        forall|j: int| 0 <= j < lines.len() ==> lines[j].len() != 0,
    ensures
        first_blank(lines) is None,
    decreases lines.len(),
{
    if lines.len() > 0 {
        assert forall|j: int| 0 <= j < lines.len() - 1 implies lines.drop_first()[j].len() != 0 by {
            assert(lines.drop_first()[j] == lines[j + 1]);
        }
        lemma_first_blank_none(lines.drop_first());
    }
}

/// The frontmatter block: the leading lines up to (not including) the first
/// blank line; with no blank line, every line belongs to the block.
pub open spec fn block_of(lines: Seq<Seq<char>>) -> Seq<Seq<char>> {
    match first_blank(lines) {
        Some(i) => lines.take(i),
        None => lines,
    }
}

/// The body: everything after the first blank line, which is itself
/// discarded; with no blank line the body is empty.
pub open spec fn body_of(lines: Seq<Seq<char>>) -> Seq<Seq<char>> {
    match first_blank(lines) {
        Some(i) => lines.skip(i + 1),
        None => Seq::empty(),
    }
}

/// Each body line is written back preceded by a newline, unchanged.
pub open spec fn render_body(lines: Seq<Seq<char>>) -> Seq<char>
    decreases lines.len(),
{
    if lines.len() == 0 {
        Seq::empty()
    } else {
        render_body(lines.drop_last()) + "\n"@ + lines.last()
    }
}

/// The whole transformation on one document: split into lines on `\n`, parse
/// the leading block, normalize, render, and re-attach the body lines.
pub open spec fn adapted(s: Seq<char>) -> Seq<char> {
    let lines = split_on(s, '\n');
    render_frontmatter(normalize_entries(pelican::parse_entries(block_of(lines)))) + render_body(
        body_of(lines),
    )
}

/// Adapt one document held in memory. This is the pure core of the utility:
/// file reading and writing stay with the caller.
pub fn adapt_pelican_frontmatter(src: &str) -> (out: String)
    ensures
        out@ == adapted(src@),
{
    let lines = crate::text::split_str(src, '\n');
    let ghost ldv = lines.deep_view();
    let n = lines.len();
    let mut i: usize = 0;
    loop
        invariant
            i <= n,
            n == lines@.len(),
            ldv == lines.deep_view(),
            ldv.len() == n,
            forall|j: int| 0 <= j < i ==> ldv[j].len() != 0,
        ensures
            i <= n,
            forall|j: int| 0 <= j < i ==> ldv[j].len() != 0,
            i < n ==> ldv[i as int].len() == 0,
        decreases n - i,
    {
        if i == n {
            break ;
        }
        proof {
            assert(ldv[i as int] == lines@[i as int]@);
        }
        if lines[i].as_str().is_empty() {
            break ;
        }
        i = i + 1;
    }
    proof {
        if i < n {
            lemma_first_blank_is(ldv, i as int);
        } else {
            lemma_first_blank_none(ldv);
            assert(ldv.take(n as int) =~= ldv);
        }
        assert(block_of(ldv) == ldv.take(i as int));
    }
    let mut block: Vec<String> = Vec::new();
    let mut b: usize = 0;
    proof {
        assert(block.deep_view() =~= ldv.take(0));
    }
    while b < i
        invariant
            b <= i <= n,
            n == lines@.len(),
            ldv == lines.deep_view(),
            ldv.len() == n,
            block.deep_view() == ldv.take(b as int),
        decreases i - b,
    {
        let ghost old_dv = block.deep_view();
        block.push(lines[b].clone());
        proof {
            assert(ldv[b as int] == lines@[b as int]@);
            assert(block.deep_view() =~= old_dv.push(ldv[b as int]));
            assert(block.deep_view() =~= ldv.take(b as int + 1));
        }
        b = b + 1;
    }
    let block_slice = block.as_slice();
    proof {
        assert(block_slice.deep_view() =~= block.deep_view());
    }
    let raw = match pelican::parse_front_matter(block_slice) {
        Ok(fm) => fm,
        Err(_) => vstd::pervasive::unreached(),
    };
    proof {
        assert(raw@ == pelican::parse_entries(block_of(ldv)));
    }
    let fm = FrontMatter::from_pelican(raw);
    let mut out = fm.write();
    let start = if i < n {
        i + 1
    } else {
        n
    };
    let ghost fmpart = out@;
    proof {
        assert(fmpart == render_frontmatter(
            normalize_entries(pelican::parse_entries(block_of(ldv))),
        ));
        assert(ldv.subrange(start as int, start as int) =~= Seq::<Seq<char>>::empty());
        assert(out@ =~= fmpart + render_body(ldv.subrange(start as int, start as int)));
    }
    let mut j: usize = start;
    while j < n
        invariant
            start <= j <= n,
            n == lines@.len(),
            ldv == lines.deep_view(),
            ldv.len() == n,
            out@ == fmpart + render_body(ldv.subrange(start as int, j as int)),
        decreases n - j,
    {
        out.append("\n");
        out.append(lines[j].as_str());
        proof {
            assert(ldv[j as int] == lines@[j as int]@);
            let t = ldv.subrange(start as int, j as int + 1);
            assert(t.drop_last() =~= ldv.subrange(start as int, j as int));
            assert(t.last() == ldv[j as int]);
        }
        j = j + 1;
    }
    proof {
        if i < n {
            assert(ldv.subrange(start as int, n as int) =~= ldv.skip(i as int + 1));
        }
        assert(body_of(ldv) =~= ldv.subrange(start as int, n as int));
        assert(out@ == adapted(src@));
    }
    out
}

/// Normalization is idempotent on its own output: take any raw fields,
/// normalize them, re-key the result as raw input again (scalars and lists
/// flattened back to strings), and normalize once more — exactly the same
/// field set comes out, and every scalar field other than `tags` keeps its
/// value.
pub proof fn lemma_normalize_idempotent(raw: Seq<(Seq<char>, Seq<char>)>)
    ensures
        entries_map(normalize_entries(rekeyed(normalize_entries(raw)))).dom() =~= entries_map(
            normalize_entries(raw),
        ).dom(),
        forall|k: Seq<char>|
            entries_map(normalize_entries(raw)).dom().contains(k) && k != key_tags()
                && entries_map(normalize_entries(raw))[k] is Value ==> entries_map(
                normalize_entries(rekeyed(normalize_entries(raw))),
            )[k] == entries_map(normalize_entries(raw))[k],
{
    lemma_normalize_entries_sorted(raw);
    lemma_normalize_keys_normal(raw);
    lemma_normalize_idempotent_normal(normalize_entries(raw));
}

/// With no blank line anywhere in the input, the entire input is treated as
/// frontmatter fields and the body contributes nothing to the output.
pub proof fn lemma_adapt_no_blank(s: Seq<char>)
    requires
        forall|i: int|
            0 <= i < split_on(s, '\n').len() ==> (#[trigger] split_on(s, '\n')[i]).len() != 0,
    ensures
        adapted(s) == render_frontmatter(
            normalize_entries(pelican::parse_entries(split_on(s, '\n'))),
        ),
{
    let lines = split_on(s, '\n');
    lemma_first_blank_none(lines);
    assert(block_of(lines) == lines);
    let fmpart = render_frontmatter(normalize_entries(pelican::parse_entries(lines)));
    assert(render_body(body_of(lines)) =~= Seq::<char>::empty());
    assert(fmpart + Seq::<char>::empty() =~= fmpart);
}

} // verus!
