//! The on-disk layout of a data directory.
//!
//! A data directory holds a title file, a directory of raw markup pages, a
//! directory of parsed pages and a directory of span-tagged output, each page
//! file named by its numeric page id.  This module computes those paths and
//! parses page ids back out of them; reading and writing the files themselves
//! is left to the surrounding tooling.

use std::collections::HashSet;
use vstd::prelude::*;
use vstd::string::StringExecFns;
use vstd::utf8::encode_utf8;

verus! {

broadcast use vstd::std_specs::hash::group_hash_axioms;

/// Why a path could not be read as a page file.
#[derive(Debug, Clone, Copy, PartialEq, Eq, Structural)]
pub enum DataError {
    /// A file's stem is not a decimal page id in range.
    InvalidPageId,
}

/// A decimal digit byte.
pub open spec fn is_digit(b: u8) -> bool {
    0x30 <= b <= 0x39
}

/// Every byte is a decimal digit.
pub open spec fn all_digits(s: Seq<u8>) -> bool {
    forall|i: int| 0 <= i < s.len() ==> is_digit(#[trigger] s[i])
}

/// The value of a big-endian sequence of decimal digit bytes.
pub open spec fn digits_value(s: Seq<u8>) -> int
    decreases s.len(),
{
    if s.len() == 0 {
        0
    } else {
        digits_value(s.drop_last()) * 10 + (s.last() - 0x30)
    }
}

/// The index of the last occurrence of a byte in a sequence, or -1.
pub open spec fn last_index_of(s: Seq<u8>, b: u8) -> int
    decreases s.len(),
{
    if s.len() == 0 {
        -1
    } else if s.last() == b {
        s.len() - 1
    } else {
        last_index_of(s.drop_last(), b)
    }
}

/// The last-occurrence index always lies in `[-1, len)`.
pub proof fn lemma_last_index_of_bounds(s: Seq<u8>, b: u8)
    ensures
        -1 <= last_index_of(s, b) < s.len(),
    decreases s.len(),
{
    if s.len() == 0 {
    } else if s.last() == b {
    } else {
        lemma_last_index_of_bounds(s.drop_last(), b);
    }
}

/// The file-name portion of a path's bytes: everything after the last slash.
pub open spec fn file_name_of(p: Seq<u8>) -> Seq<u8> {
    p.subrange(last_index_of(p, 0x2f) + 1, p.len() as int)
}

/// The stem of a file name: the bytes before the last dot, unless the dot
/// leads the name or there is none, in which case the whole name.
pub open spec fn stem_of(name: Seq<u8>) -> Seq<u8> {
    let j = last_index_of(name, 0x2e);
    if j > 0 {
        name.take(j)
    } else {
        name
    }
}

/// The page-id stem of a path: the stem of its file name, over the UTF-8
/// bytes of the path.
pub open spec fn pageid_stem(path: Seq<char>) -> Seq<u8> {
    stem_of(file_name_of(encode_utf8(path)))
}

/// A stem that denotes a page id: non-empty, all decimal digits, in range.
pub open spec fn valid_pageid_stem(st: Seq<u8>) -> bool {
    &&& st.len() > 0
    &&& all_digits(st)
    &&& digits_value(st) <= u32::MAX
}

/// The value of a digit sequence is non-negative.
pub proof fn lemma_digits_value_nonneg(s: Seq<u8>)
    requires
        all_digits(s),
    ensures
        digits_value(s) >= 0,
    decreases s.len(),
{
    if s.len() == 0 {
    } else {
        assert(is_digit(s[s.len() - 1]));
        assert(all_digits(s.drop_last()));
        lemma_digits_value_nonneg(s.drop_last());
    }
}

/// Dropping trailing digits can only shrink the value.
pub proof fn lemma_digits_value_prefix_le(s: Seq<u8>, k: int)
    requires
        all_digits(s),
        0 <= k <= s.len(),
    ensures
        digits_value(s.take(k)) <= digits_value(s),
    decreases s.len(),
{
    if k == s.len() {
        assert(s.take(k) =~= s);
    } else {
        assert(is_digit(s[s.len() - 1]));
        assert(all_digits(s.drop_last()));
        assert(s.take(k) =~= s.drop_last().take(k));
        lemma_digits_value_prefix_le(s.drop_last(), k);
        lemma_digits_value_nonneg(s.drop_last());
    }
}

/// How the last-occurrence index grows as a sequence is scanned forward.
proof fn lemma_last_index_take_step(s: Seq<u8>, b: u8, i: int)
    requires
        0 <= i < s.len(),
    ensures
        last_index_of(s.take(i + 1), b) == if s[i] == b {
            i
        } else {
            last_index_of(s.take(i), b)
        },
{
    assert(s.take(i + 1).len() == i + 1);
    assert(s.take(i + 1).last() == s[i]);
    assert(s.take(i + 1).drop_last() =~= s.take(i));
}

/// How a digit value grows as digits are appended.
proof fn lemma_digits_value_take_step(s: Seq<u8>, k: int)
    requires
        0 <= k < s.len(),
    ensures
        digits_value(s.take(k + 1)) == digits_value(s.take(k)) * 10 + (s[k] - 0x30),
{
    assert(s.take(k + 1).len() == k + 1);
    assert(s.take(k + 1).last() == s[k]);
    assert(s.take(k + 1).drop_last() =~= s.take(k));
}

/// Reads the page id out of a path, if its file stem is a decimal page id:
/// exactly the paths on which [`parse_pageid`] is defined.
pub fn try_parse_pageid(path: &str) -> (r: Option<u32>)
    ensures
        match r {
            Some(id) => valid_pageid_stem(pageid_stem(path@)) && id == digits_value(
                pageid_stem(path@),
            ),
            None => !valid_pageid_stem(pageid_stem(path@)),
        },
{
    let bytes = path.as_bytes();
    let n = bytes.len();
    // The byte after the last slash, if any.
    let mut start: usize = 0;
    let mut i: usize = 0;
    proof {
        assert(bytes@.take(0) =~= Seq::<u8>::empty());
    }
    while i < n
        invariant
            start <= i <= n,
            n == bytes@.len(),
            last_index_of(bytes@.take(i as int), 0x2f) == start as int - 1,
        decreases n - i,
    {
        proof {
            lemma_last_index_take_step(bytes@, 0x2f, i as int);
        }
        if bytes[i] == 0x2f {
            start = i + 1;
        }
        i += 1;
    }
    proof {
        assert(bytes@.take(n as int) =~= bytes@);
    }
    let ghost name = file_name_of(bytes@);
    proof {
        assert(name =~= bytes@.subrange(start as int, n as int));
    }
    // The last dot strictly inside the file name, if any.
    let mut dot: usize = start;
    let mut j: usize = start;
    proof {
        assert(name.take(0) =~= Seq::<u8>::empty());
    }
    while j < n
        invariant
            start <= j <= n,
            start <= dot,
            dot == start || start < dot <= j,
            n == bytes@.len(),
            name == bytes@.subrange(start as int, n as int),
            last_index_of(name.take(j - start), 0x2e) == dot as int - start as int - 1,
        decreases n - j,
    {
        proof {
            lemma_last_index_take_step(name, 0x2e, j - start);
            assert(name[j - start] == bytes@[j as int]);
        }
        if bytes[j] == 0x2e {
            dot = j + 1;
        }
        j += 1;
    }
    proof {
        assert(name.take(n - start) =~= name);
    }
    // The stem: before the last dot when that dot is not the name's head.
    let stem_end: usize = if dot - start > 1 {
        dot - 1
    } else {
        n
    };
    let ghost st = pageid_stem(path@);
    proof {
        lemma_last_index_of_bounds(name, 0x2e);
        assert(st =~= bytes@.subrange(start as int, stem_end as int));
    }
    if stem_end == start {
        return None;
    }
    // Parse the decimal digits of the stem.
    let mut acc: u32 = 0;
    let mut t: usize = start;
    proof {
        assert(st.take(0) =~= Seq::<u8>::empty());
    }
    while t < stem_end
        invariant
            start <= t <= stem_end <= n,
            n == bytes@.len(),
            st == pageid_stem(path@),
            st == bytes@.subrange(start as int, stem_end as int),
            st.len() == stem_end - start,
            forall|k: int| 0 <= k < t - start ==> is_digit(#[trigger] st[k]),
            acc == digits_value(st.take(t - start)),
        decreases stem_end - t,
    {
        let b = bytes[t];
        proof {
            assert(st[t - start] == bytes@[t as int]);
        }
        if b < 0x30 || b > 0x39 {
            proof {
                assert(!is_digit(st[t - start]));
            }
            return None;
        }
        let d = (b - 0x30) as u32;
        let next = acc as u64 * 10 + d as u64;
        proof {
            lemma_digits_value_take_step(st, t - start);
        }
        if next > u32::MAX as u64 {
            proof {
                if all_digits(st) {
                    lemma_digits_value_prefix_le(st, t - start + 1);
                }
            }
            return None;
        }
        acc = next as u32;
        t += 1;
    }
    proof {
        assert(st.take(stem_end - start) =~= st);
    }
    Some(acc)
}

/// Reads the page id out of a path whose file stem is known to be a decimal
/// page id in range.
pub fn parse_pageid(path: &str) -> (id: u32)
    requires
        valid_pageid_stem(pageid_stem(path@)),
    ensures
        id == digits_value(pageid_stem(path@)),
{
    match try_parse_pageid(path) {
        Some(id) => id,
        None => vstd::pervasive::unreached(),
    }
}

/// The set of page ids denoted by a sequence of page-file paths.
pub open spec fn pageid_set(paths: Seq<String>) -> Set<u32> {
    Set::new(
        |v: u32|
            exists|k: int|
                0 <= k < paths.len() && digits_value(pageid_stem(#[trigger] paths[k]@)) == v,
    )
}

/// A decimal digit as a character.
pub open spec fn decimal_digit(d: int) -> char {
    if d == 0 {
        '0'
    } else if d == 1 {
        '1'
    } else if d == 2 {
        '2'
    } else if d == 3 {
        '3'
    } else if d == 4 {
        '4'
    } else if d == 5 {
        '5'
    } else if d == 6 {
        '6'
    } else if d == 7 {
        '7'
    } else if d == 8 {
        '8'
    } else {
        '9'
    }
}

/// The decimal rendering of a number, most significant digit first.
pub open spec fn decimal_chars(n: nat) -> Seq<char>
    decreases n,
{
    if n < 10 {
        seq![decimal_digit(n as int)]
    } else {
        decimal_chars(n / 10).push(decimal_digit((n % 10) as int))
    }
}

/// One decimal digit as a string slice.
fn digit_str(d: u32) -> (s: &'static str)
    requires
        d < 10,
    ensures
        s@ == seq![decimal_digit(d as int)],
{
    proof {
        reveal_strlit("0");
        reveal_strlit("1");
        reveal_strlit("2");
        reveal_strlit("3");
        reveal_strlit("4");
        reveal_strlit("5");
        reveal_strlit("6");
        reveal_strlit("7");
        reveal_strlit("8");
        reveal_strlit("9");
    }
    let s = if d == 0 {
        "0"
    } else if d == 1 {
        "1"
    } else if d == 2 {
        "2"
    } else if d == 3 {
        "3"
    } else if d == 4 {
        "4"
    } else if d == 5 {
        "5"
    } else if d == 6 {
        "6"
    } else if d == 7 {
        "7"
    } else if d == 8 {
        "8"
    } else {
        "9"
    };
    proof {
        assert(s@ =~= seq![decimal_digit(d as int)]);
    }
    s
}

/// Renders a number in decimal.
pub fn u32_decimal(n: u32) -> (s: String)
    ensures
        s@ == decimal_chars(n as nat),
    decreases n,
{
    if n < 10 {
        digit_str(n).to_owned()
    } else {
        let mut s = u32_decimal(n / 10);
        s.append(digit_str(n % 10));
        proof {
            assert(s@ =~= decimal_chars(n as nat));
        }
        s
    }
}

/// The paths a data directory is laid out with.  The five path fields are
/// computed once by [`Data::new`]; the extensions are fixed.
pub struct Data {
    pub base_dir: String,
    pub title_file: String,
    pub markuped_text_dir: String,
    pub parsed_text_dir: String,
    pub biluo_dir: String,
    pub markuped_text_file_extension: String,
    pub parsed_text_file_extension: String,
    pub biluo_file_extension: String,
}

impl Data {
    /// The fixed file extensions are in place.
    pub open spec fn wf(self) -> bool {
        &&& self.markuped_text_file_extension@ == "txt"@
        &&& self.parsed_text_file_extension@ == "json"@
        &&& self.biluo_file_extension@ == "tsv"@
    }

    /// Lays out a data directory under the given base directory.  Creating
    /// the directories on disk is the caller's business.
    pub fn new(base_dir: &str) -> (d: Data)
        ensures
            d.wf(),
            d.base_dir@ == base_dir@,
            d.title_file@ == base_dir@ + "/titles.csv"@,
            d.markuped_text_dir@ == base_dir@ + "/raw"@,
            d.parsed_text_dir@ == base_dir@ + "/parsed"@,
            d.biluo_dir@ == base_dir@ + "/biluo"@,
    {
        let mut title_file = base_dir.to_owned();
        title_file.append("/titles.csv");
        let mut markuped_text_dir = base_dir.to_owned();
        markuped_text_dir.append("/raw");
        let mut parsed_text_dir = base_dir.to_owned();
        parsed_text_dir.append("/parsed");
        let mut biluo_dir = base_dir.to_owned();
        biluo_dir.append("/biluo");
        Data {
            base_dir: base_dir.to_owned(),
            title_file,
            markuped_text_dir,
            parsed_text_dir,
            biluo_dir,
            markuped_text_file_extension: "txt".to_owned(),
            parsed_text_file_extension: "json".to_owned(),
            biluo_file_extension: "tsv".to_owned(),
        }
    }

    /// The glob pattern matching the raw markup page files.
    pub fn markuped_text_pattern(&self) -> (r: String)
        requires
            self.wf(),
        ensures
            r@ == self.markuped_text_dir@ + "/*.txt"@,
    {
        let mut r = self.markuped_text_dir.clone();
        r.append("/*.");
        r.append(self.markuped_text_file_extension.as_str());
        proof {
            reveal_strlit("/*.");
            reveal_strlit("txt");
            reveal_strlit("/*.txt");
            assert(r@ =~= self.markuped_text_dir@ + "/*.txt"@);
        }
        r
    }

    /// The glob pattern matching the parsed page files.
    pub fn parsed_text_pattern(&self) -> (r: String)
        requires
            self.wf(),
        ensures
            r@ == self.parsed_text_dir@ + "/*.json"@,
    {
        let mut r = self.parsed_text_dir.clone();
        r.append("/*.");
        r.append(self.parsed_text_file_extension.as_str());
        proof {
            reveal_strlit("/*.");
            reveal_strlit("json");
            reveal_strlit("/*.json");
            assert(r@ =~= self.parsed_text_dir@ + "/*.json"@);
        }
        r
    }

    /// The glob pattern matching the span-tagged output files.
    pub fn biluo_pattern(&self) -> (r: String)
        requires
            self.wf(),
        ensures
            r@ == self.biluo_dir@ + "/*.tsv"@,
    {
        let mut r = self.biluo_dir.clone();
        r.append("/*.");
        r.append(self.biluo_file_extension.as_str());
        proof {
            reveal_strlit("/*.");
            reveal_strlit("tsv");
            reveal_strlit("/*.tsv");
            assert(r@ =~= self.biluo_dir@ + "/*.tsv"@);
        }
        r
    }

    /// The path of the raw markup file of a page.
    pub fn markuped_text_path(&self, pageid: u32) -> (r: String)
        requires
            self.wf(),
        ensures
            r@ == self.markuped_text_dir@ + "/"@ + decimal_chars(pageid as nat) + ".txt"@,
    {
        let mut r = self.markuped_text_dir.clone();
        r.append("/");
        let num = u32_decimal(pageid);
        r.append(num.as_str());
        r.append(".");
        r.append(self.markuped_text_file_extension.as_str());
        proof {
            reveal_strlit(".");
            reveal_strlit("txt");
            reveal_strlit(".txt");
            assert(r@ =~= self.markuped_text_dir@ + "/"@ + decimal_chars(pageid as nat)
                + ".txt"@);
        }
        r
    }

    /// The path of the parsed file of a page.
    pub fn parsed_text_path(&self, pageid: u32) -> (r: String)
        requires
            self.wf(),
        ensures
            r@ == self.parsed_text_dir@ + "/"@ + decimal_chars(pageid as nat) + ".json"@,
    {
        let mut r = self.parsed_text_dir.clone();
        r.append("/");
        let num = u32_decimal(pageid);
        r.append(num.as_str());
        r.append(".");
        r.append(self.parsed_text_file_extension.as_str());
        proof {
            reveal_strlit(".");
            reveal_strlit("json");
            reveal_strlit(".json");
            assert(r@ =~= self.parsed_text_dir@ + "/"@ + decimal_chars(pageid as nat)
                + ".json"@);
        }
        r
    }

    /// Collects the set of page ids already present among the raw markup
    /// page files; fails when some file's stem is not a page id.
    pub fn make_pageid_set_from_markuped_text_files(&self, paths: &Vec<String>) -> (r: Result<
        HashSet<u32>,
        DataError,
    >)
        ensures
            match r {
                Ok(ids) => {
                    &&& forall|k: int|
                        0 <= k < paths@.len() ==> valid_pageid_stem(
                            pageid_stem(#[trigger] paths@[k]@),
                        )
                    &&& ids@ == pageid_set(paths@)
                },
                Err(e) => {
                    &&& e == DataError::InvalidPageId
                    &&& exists|k: int|
                        0 <= k < paths@.len() && !valid_pageid_stem(
                            pageid_stem(#[trigger] paths@[k]@),
                        )
                },
            },
    {
        let mut ids: HashSet<u32> = HashSet::new();
        let n = paths.len();
        let mut i: usize = 0;
        proof {
            assert(ids@ =~= pageid_set(paths@.take(0)));
        }
        while i < n
            invariant
                i <= n,
                n == paths@.len(),
                forall|k: int|
                    0 <= k < i ==> valid_pageid_stem(pageid_stem(#[trigger] paths@[k]@)),
                ids@ == pageid_set(paths@.take(i as int)),
            decreases n - i,
        {
            let path = &paths[i];
            match try_parse_pageid(path.as_str()) {
                Some(id) => {
                    ids.insert(id);
                    proof {
                        assert forall|v: u32|
                            pageid_set(paths@.take(i as int)).insert(id).contains(v)
                                == pageid_set(paths@.take(i as int + 1)).contains(v) by {
                            if pageid_set(paths@.take(i as int)).contains(v) {
                                let k = choose|k: int|
                                    0 <= k < paths@.take(i as int).len() && digits_value(
                                        pageid_stem(#[trigger] paths@.take(i as int)[k]@),
                                    ) == v;
                                assert(paths@.take(i as int + 1)[k] == paths@.take(i as int)[k]);
                            }
                            if v == id {
                                assert(paths@.take(i as int + 1)[i as int] == paths@[i as int]);
                            }
                            if pageid_set(paths@.take(i as int + 1)).contains(v) {
                                let k = choose|k: int|
                                    0 <= k < paths@.take(i as int + 1).len() && digits_value(
                                        pageid_stem(#[trigger] paths@.take(i as int + 1)[k]@),
                                    ) == v;
                                if k < i {
                                    assert(paths@.take(i as int)[k] == paths@.take(
                                        i as int + 1,
                                    )[k]);
                                }
                            }
                        }
                        assert(ids@ =~= pageid_set(paths@.take(i as int + 1)));
                    }
                },
                None => {
                    return Err(DataError::InvalidPageId);
                },
            }
            i += 1;
        }
        proof {
            assert(paths@.take(n as int) =~= paths@);
        }
        Ok(ids)
    }
}

} // verus!
