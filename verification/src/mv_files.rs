//! Helpers for the file-moving utilities: parsing human-readable byte sizes,
//! building flat destination paths, and parsing extension lists.

use vstd::prelude::*;

use crate::text::{
    all_digits, digits_val, is_digit_char, lemma_digits_val_prefix, split_on, split_str, str_eq,
};

verus! {

/// What can go wrong while selecting and moving files.
#[derive(Debug, PartialEq)]
pub enum MvFilesError {
    EmptySources,
    EmptyExtensions,
    InvaildSize { arg: String },
    InvalidExtensionsList { arg: String },
    InvalidFileName { arg: String },
}

impl MvFilesError {
    /// The human-readable message for this failure.
    pub fn message(&self) -> (r: String)
        ensures
            r@ == match *self {
                MvFilesError::EmptySources => "Source directories missing"@,
                MvFilesError::EmptyExtensions => "Extensions missing"@,
                MvFilesError::InvaildSize { arg } => "Invalid size arg '"@ + arg@ + "'"@,
                MvFilesError::InvalidExtensionsList { arg } => "Invalid extensions list '"@ + arg@
                    + "'"@,
                MvFilesError::InvalidFileName { arg } => "Invalid file name'"@ + arg@ + "'"@,
            },
    {
        match self {
            MvFilesError::EmptySources => String::from_str("Source directories missing"),
            MvFilesError::EmptyExtensions => String::from_str("Extensions missing"),
            MvFilesError::InvaildSize { arg } => String::from_str("Invalid size arg '").concat(
                arg.as_str(),
            ).concat("'"),
            MvFilesError::InvalidExtensionsList { arg } => String::from_str(
                "Invalid extensions list '",
            ).concat(arg.as_str()).concat("'"),
            MvFilesError::InvalidFileName { arg } => String::from_str("Invalid file name'").concat(
                arg.as_str(),
            ).concat("'"),
        }
    }
}

/// The scale suffixes a size argument may carry.
pub open spec fn is_scale_char(c: char) -> bool {
    c == 'k' || c == 'M' || c == 'G' || c == 'T' || c == 'P'
}

/// Powers of 1024 for each scale suffix; anything else scales by one.
pub open spec fn scale_factor(c: char) -> int {
    if c == 'k' {
        1024
    } else if c == 'M' {
        1048576
    } else if c == 'G' {
        1073741824
    } else if c == 'T' {
        1099511627776
    } else if c == 'P' {
        1125899906842624
    } else {
        1
    }
}

/// The numeric part of a size argument: every trailing scale letter is
/// stripped, as `str::trim_end_matches` strips them.
pub open spec fn strip_scales(s: Seq<char>) -> Seq<char>
    decreases s.len(),
{
    if s.len() > 0 && is_scale_char(s.last()) {
        strip_scales(s.drop_last())
    } else {
        s
    }
}

/// The number `u64::from_str` reads: an optional leading `+`, then at least
/// one decimal digit, and nothing else. The value is unbounded here; the
/// executable parser reports a number beyond `u64::MAX` as unparsable, as
/// `from_str` does.
pub open spec fn parse_u64_val(s: Seq<char>) -> Option<int> {
    let t = if s.len() > 0 && s[0] == '+' {
        s.drop_first()
    } else {
        s
    };
    if t.len() > 0 && all_digits(t) {
        Some(digits_val(t))
    } else {
        None
    }
}

/// What a size argument is worth in bytes: `None` where the size is invalid
/// (empty, or a numeric part that does not parse as `u64`), otherwise the
/// parsed number times the scale of the argument's last character. The
/// product itself may exceed `u64::MAX`.
pub open spec fn human_size_val(s: Seq<char>) -> Option<int> {
    if s.len() == 0 {
        None
    } else {
        match parse_u64_val(strip_scales(s)) {
            Some(v) => if v <= u64::MAX {
                Some(v * scale_factor(s.last()))
            } else {
                None
            },
            None => None,
        }
    }
}

pub proof fn lemma_parse_u64_val_nonneg(s: Seq<char>)
    ensures
        parse_u64_val(s) matches Some(v) ==> v >= 0,
{
    let t = if s.len() > 0 && s[0] == '+' {
        s.drop_first()
    } else {
        s
    };
    if t.len() > 0 && all_digits(t) {
        crate::text::lemma_digits_val_nonneg(t);
    }
}

pub proof fn lemma_human_size_val_nonneg(s: Seq<char>)
    ensures
        human_size_val(s) matches Some(v) ==> v >= 0,
{
    lemma_parse_u64_val_nonneg(strip_scales(s));
    if s.len() > 0 {
        match parse_u64_val(strip_scales(s)) {
            Some(v) => {
                if v <= u64::MAX {
                    vstd::arithmetic::mul::lemma_mul_nonnegative(v, scale_factor(s.last()));
                }
            },
            None => {},
        }
    }
}

fn is_scale(c: char) -> (r: bool)
    ensures
        r == is_scale_char(c),
{
    c == 'k' || c == 'M' || c == 'G' || c == 'T' || c == 'P'
}

/// The numeric part of a size argument, with trailing scale letters removed.
fn numeric_part<'a>(size: &'a str) -> (r: &'a str)
    ensures
        r@ == strip_scales(size@),
{
    let n = size.unicode_len();
    let mut hi: usize = n;
    proof {
        assert(size@.take(n as int) =~= size@);
    }
    while hi > 0 && is_scale(size.get_char(hi - 1))
        invariant
            hi <= n,
            n == size@.len(),
            strip_scales(size@) == strip_scales(size@.take(hi as int)),
        decreases hi,
    {
        proof {
            let t = size@.take(hi as int);
            assert(t.last() == size@[hi as int - 1]);
            assert(t.drop_last() =~= size@.take(hi as int - 1));
        }
        hi = hi - 1;
    }
    proof {
        assert(strip_scales(size@.take(hi as int)) == size@.take(hi as int));
        assert(size@.subrange(0, hi as int) =~= size@.take(hi as int));
    }
    size.substring_char(0, hi)
}

/// Parse a decimal `u64` as `u64::from_str` does: an optional leading `+`,
/// then digits; `None` on anything else or on a value past `u64::MAX`.
fn parse_u64_digits(s: &str) -> (r: Option<u64>)
    ensures
        match parse_u64_val(s@) {
            Some(v) => if v <= u64::MAX {
                r == Some(v as u64)
            } else {
                r is None
            },
            None => r is None,
        },
{
    let n = s.unicode_len();
    let start: usize = if n > 0 && s.get_char(0) == '+' {
        1
    } else {
        0
    };
    let ghost t = if s@.len() > 0 && s@[0] == '+' {
        s@.drop_first()
    } else {
        s@
    };
    proof {
        assert(t =~= s@.skip(start as int));
    }
    if start == n {
        return None;
    }
    let mut acc: u64 = 0;
    let mut i: usize = start;
    proof {
        assert(t.take(0) =~= Seq::<char>::empty());
    }
    while i < n
        invariant
            start < n,
            start <= i <= n,
            n == s@.len(),
            t == s@.skip(start as int),
            t.len() == n - start,
            parse_u64_val(s@) == (if all_digits(t) {
                Option::Some(digits_val(t))
            } else {
                Option::<int>::None
            }),
            forall|j: int| 0 <= j < i - start ==> is_digit_char(t[j]),
            acc as int == digits_val(t.take(i - start)),
        decreases n - i,
    {
        let c = s.get_char(i);
        let u = c as u32;
        proof {
            assert(t[i - start] == s@[i as int]);
        }
        if u < 48 || u > 57 {
            proof {
                assert(!is_digit_char(t[i - start]));
                assert(!all_digits(t));
            }
            return None;
        }
        let d = (u - 48) as u64;
        proof {
            let tk = t.take(i - start + 1);
            assert(tk.drop_last() =~= t.take(i - start));
            assert(tk.last() == t[i - start]);
            assert(digits_val(tk) == acc * 10 + d);
        }
        if acc > 1844674407370955161u64 || (acc == 1844674407370955161u64 && d > 5) {
            proof {
                // whatever follows, the digits seen already outgrow u64
                assert(digits_val(t.take(i - start + 1)) > u64::MAX);
                if all_digits(t) {
                    lemma_digits_val_prefix(t, i - start + 1);
                    assert(parse_u64_val(s@) == Some(digits_val(t)));
                    assert(digits_val(t) > u64::MAX);
                } else {
                    assert(parse_u64_val(s@) is None);
                }
            }
            return None;
        }
        acc = acc * 10 + d;
        i = i + 1;
    }
    proof {
        assert(t.take(n - start) =~= t);
    }
    Some(acc)
}

/// Like [`human_size_to_bytes`], for callers that cannot rule out overflow in
/// advance: a size whose byte value exceeds `u64::MAX` comes back as `None`,
/// as does an invalid size.
pub fn human_size_to_bytes_checked(size: &str) -> (r: Option<u64>)
    ensures
        match human_size_val(size@) {
            Some(v) => if v <= u64::MAX {
                r == Some(v as u64)
            } else {
                r is None
            },
            None => r is None,
        },
{
    let n = size.unicode_len();
    if n == 0 {
        return None;
    }
    let scale = size.get_char(n - 1);
    let num = numeric_part(size);
    match parse_u64_digits(num) {
        None => None,
        Some(v) => {
            let factor: u64 = if scale == 'k' {
                1024
            } else if scale == 'M' {
                1048576
            } else if scale == 'G' {
                1073741824
            } else if scale == 'T' {
                1099511627776
            } else if scale == 'P' {
                1125899906842624
            } else {
                1
            };
            proof {
                lemma_parse_u64_val_nonneg(strip_scales(size@));
                assert(factor as int == scale_factor(size@.last()));
                assert(parse_u64_val(strip_scales(size@)) == Some(v as int));
                assert(human_size_val(size@) == Some((v as int) * (factor as int)));
                lemma_human_size_val_nonneg(size@);
            }
            v.checked_mul(factor)
        },
    }
}

/// Parse a human-readable size such as `100M` into bytes: a decimal number
/// with an optional scale suffix `k`, `M`, `G`, `T` or `P`, each a further
/// power of 1024. An empty argument or an unparsable numeric part is an
/// invalid size; the caller rules out a product beyond `u64::MAX`.
pub fn human_size_to_bytes(size: &str) -> (r: Result<u64, MvFilesError>)
    requires
        human_size_val(size@) matches Some(v) ==> v <= u64::MAX,
    ensures
        match r {
            Ok(b) => human_size_val(size@) == Some(b as int),
            Err(e) => human_size_val(size@) is None && (e matches MvFilesError::InvaildSize { arg }
                && arg@ == strip_scales(size@)),
        },
{
    proof {
        lemma_human_size_val_nonneg(size@);
    }
    match human_size_to_bytes_checked(size) {
        Some(b) => Ok(b),
        None => {
            let num = numeric_part(size);
            Err(MvFilesError::InvaildSize { arg: num.to_owned() })
        },
    }
}

/// Everything after the last `/`-separated real component: trailing empty
/// and `.` components do not count.
pub open spec fn last_component(comps: Seq<Seq<char>>) -> Option<Seq<char>>
    decreases comps.len(),
{
    if comps.len() == 0 {
        None
    } else if comps.last().len() == 0 || comps.last() == seq!['.'] {
        last_component(comps.drop_last())
    } else {
        Some(comps.last())
    }
}

/// The final component of a `/`-separated path, as `Path::file_name` finds
/// it: trailing separators and `.` components are skipped, and a path whose
/// final component is `..`, or that has no component at all, carries no file
/// name.
pub open spec fn file_name_of(p: Seq<char>) -> Option<Seq<char>> {
    match last_component(split_on(p, '/')) {
        Some(c) => if c == seq!['.', '.'] {
            None
        } else {
            Some(c)
        },
        None => None,
    }
}

/// A file name appended under a directory, as `PathBuf::push` appends a
/// relative name: a separator is added unless the directory is empty or
/// already ends with one.
pub open spec fn path_join(dir: Seq<char>, name: Seq<char>) -> Seq<char> {
    if dir.len() == 0 {
        name
    } else if dir.last() == '/' {
        dir + name
    } else {
        dir + seq!['/'] + name
    }
}

/// Where a file should land: the file name of `file_path` placed directly
/// under `destination_dir`. A path without a file name is rejected.
pub fn destination_path(destination_dir: &str, file_path: &str) -> (r: Result<
    String,
    MvFilesError,
>)
    ensures
        match file_name_of(file_path@) {
            Some(name) => r matches Ok(p) && p@ == path_join(destination_dir@, name),
            None => r matches Err(e) && (e matches MvFilesError::InvalidFileName { arg } && arg@
                == file_path@),
        },
{
    let comps = split_str(file_path, '/');
    let ghost cdv = comps.deep_view();
    let mut idx: usize = comps.len();
    proof {
        assert(cdv.take(comps@.len() as int) =~= cdv);
        reveal_strlit(".");
        assert("."@ =~= seq!['.']);
    }
    loop
        invariant
            idx <= comps@.len(),
            cdv == comps.deep_view(),
            cdv.len() == comps@.len(),
            last_component(cdv) == last_component(cdv.take(idx as int)),
        ensures
            idx <= comps@.len(),
            cdv == comps.deep_view(),
            last_component(cdv) == if idx == 0 {
                None::<Seq<char>>
            } else {
                Some(cdv[idx - 1])
            },
        decreases idx,
    {
        if idx == 0 {
            proof {
                assert(cdv.take(0) =~= Seq::<Seq<char>>::empty());
            }
            break ;
        }
        let comp = comps[idx - 1].as_str();
        proof {
            reveal_strlit(".");
            assert("."@ =~= seq!['.']);
            assert(cdv[idx - 1] == comps@[idx - 1]@);
            let tk = cdv.take(idx as int);
            assert(tk.last() == cdv[idx - 1]);
            assert(tk.drop_last() =~= cdv.take(idx as int - 1));
        }
        let keep = !comp.is_empty() && !str_eq(comp, ".");
        if keep {
            break ;
        }
        idx = idx - 1;
    }
    if idx == 0 {
        return Err(MvFilesError::InvalidFileName { arg: file_path.to_owned() });
    }
    let name = comps[idx - 1].as_str();
    proof {
        assert(name@ == cdv[idx - 1]);
        reveal_strlit("..");
        assert(".."@ =~= seq!['.', '.']);
    }
    if str_eq(name, "..") {
        return Err(MvFilesError::InvalidFileName { arg: file_path.to_owned() });
    }
    let mut out = String::new();
    let dlen = destination_dir.unicode_len();
    if dlen == 0 {
        out.append(name);
    } else if destination_dir.get_char(dlen - 1) == '/' {
        out.append(destination_dir);
        out.append(name);
    } else {
        out.append(destination_dir);
        out.append("/");
        out.append(name);
        proof {
            reveal_strlit("/");
            assert("/"@ =~= seq!['/']);
        }
    }
    proof {
        assert(out@ == path_join(destination_dir@, name@));
    }
    Ok(out)
}

/// Trailing commas of an extensions argument are stripped, as
/// `str::trim_end_matches` strips them.
pub open spec fn strip_commas(s: Seq<char>) -> Seq<char>
    decreases s.len(),
{
    if s.len() > 0 && s.last() == ',' {
        strip_commas(s.drop_last())
    } else {
        s
    }
}

/// Parse a comma-separated list of file extensions. An empty argument is
/// rejected; otherwise the pieces between commas are returned in order,
/// trailing commas ignored.
pub fn parse_extensions(ext: &str) -> (r: Result<Vec<String>, MvFilesError>)
    ensures
        match r {
            Ok(v) => ext@.len() > 0 && v.deep_view() == split_on(strip_commas(ext@), ','),
            Err(e) => ext@.len() == 0 && (e matches MvFilesError::InvalidExtensionsList { arg }
                && arg@ == ext@),
        },
{
    if ext.is_empty() {
        return Err(MvFilesError::InvalidExtensionsList { arg: ext.to_owned() });
    }
    let n = ext.unicode_len();
    let mut hi: usize = n;
    proof {
        assert(ext@.take(n as int) =~= ext@);
    }
    while hi > 0 && ext.get_char(hi - 1) == ','
        invariant
            hi <= n,
            n == ext@.len(),
            strip_commas(ext@) == strip_commas(ext@.take(hi as int)),
        decreases hi,
    {
        proof {
            let t = ext@.take(hi as int);
            assert(t.last() == ext@[hi as int - 1]);
            assert(t.drop_last() =~= ext@.take(hi as int - 1));
        }
        hi = hi - 1;
    }
    proof {
        assert(strip_commas(ext@.take(hi as int)) == ext@.take(hi as int));
        assert(ext@.subrange(0, hi as int) =~= ext@.take(hi as int));
    }
    let core = ext.substring_char(0, hi);
    Ok(split_str(core, ','))
}

} // verus!
