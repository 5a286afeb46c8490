//! The parts of a `/`-separated path the editor looks at: its file name, its
//! extension and its stem, with the meaning `std::path::Path` gives them.

use vstd::prelude::*;
use crate::lang::Lang;
use crate::text::{
    after_last_slash, chars_equal, chars_of, decimal, decimal_chars, image_ext_spec, is_image_ext,
    lemma_after_last_slash, lemma_decimal_injective, lower_chars, lower_seq, string_of, zero_padded,
    zero_padded_chars,
};

verus! {

/// The file name of a path: its last component, after trailing `/` and `.`
/// components are dropped; none when that component is `..` or there is none.
pub open spec fn file_name_spec(p: Seq<char>) -> Option<Seq<char>>
    decreases p.len(),
{
    if p.len() == 0 {
        None
    } else if p.last() == '/' {
        file_name_spec(p.drop_last())
    } else {
        let seg = after_last_slash(p);
        if seg == seq!['.'] {
            file_name_spec(p.drop_last())
        } else if seg == seq!['.', '.'] {
            None
        } else {
            Some(seg)
        }
    }
}

/// Index of the last occurrence of `c` in `s`, or -1.
pub open spec fn last_index_of(s: Seq<char>, c: char) -> int
    decreases s.len(),
{
    if s.len() == 0 {
        -1
    } else if s.last() == c {
        s.len() - 1
    } else {
        last_index_of(s.drop_last(), c)
    }
}

/// The extension of a file name: what follows its last `.`, unless it has no
/// `.` or its only `.` is the first character.
pub open spec fn name_extension(f: Seq<char>) -> Option<Seq<char>> {
    let d = last_index_of(f, '.');
    if d <= 0 {
        None
    } else {
        Some(f.subrange(d + 1, f.len() as int))
    }
}

/// The stem of a file name: what precedes its last `.`, or the whole name when
/// it has no `.` or its only `.` is the first character.
pub open spec fn name_stem(f: Seq<char>) -> Seq<char> {
    let d = last_index_of(f, '.');
    if d <= 0 {
        f
    } else {
        f.subrange(0, d)
    }
}

/// `Path::extension`.
pub open spec fn extension_spec(p: Seq<char>) -> Option<Seq<char>> {
    match file_name_spec(p) {
        Some(f) => name_extension(f),
        None => None,
    }
}

/// `Path::file_stem`.
pub open spec fn file_stem_spec(p: Seq<char>) -> Option<Seq<char>> {
    match file_name_spec(p) {
        Some(f) => Some(name_stem(f)),
        None => None,
    }
}

proof fn lemma_last_index_of(s: Seq<char>, c: char)
    ensures
        -1 <= last_index_of(s, c) < s.len(),
        last_index_of(s, c) >= 0 ==> s[last_index_of(s, c)] == c,
        forall|k: int| last_index_of(s, c) < k < s.len() ==> s[k] != c,
    decreases s.len(),
{
    if s.len() > 0 && s.last() != c {
        lemma_last_index_of(s.drop_last(), c);
        assert forall|k: int| last_index_of(s, c) < k < s.len() implies s[k] != c by {
            if k < s.len() - 1 {
                assert(s[k] == s.drop_last()[k]);
            }
        }
    }
}

/// `last_index_of` gives `i` when `s[i]` is `c` and no `c` follows it.
pub proof fn lemma_last_index_is(s: Seq<char>, c: char, i: int)
    requires
        0 <= i < s.len(),
        s[i] == c,
        forall|k: int| i < k < s.len() ==> #[trigger] s[k] != c,
    ensures
        last_index_of(s, c) == i,
    decreases s.len(),
{
    if i < s.len() - 1 {
        assert forall|k: int| i < k < s.drop_last().len() implies #[trigger] s.drop_last()[k] != c by {
            assert(s.drop_last()[k] == s[k]);
        }
        lemma_last_index_is(s.drop_last(), c, i);
    }
}

/// Index of the last `c` in `s`, if it occurs.
fn find_last(s: &Vec<char>, c: char) -> (r: Option<usize>)
    ensures
        match r {
            Some(i) => last_index_of(s@, c) == i as int,
            None => last_index_of(s@, c) == -1,
        },
{
    let mut i: usize = s.len();
    assert(s@.subrange(0, i as int) =~= s@);
    while i > 0
        invariant
            i <= s.len(),
            last_index_of(s@, c) == last_index_of(s@.subrange(0, i as int), c),
        decreases i,
    {
        assert(s@.subrange(0, i as int).drop_last() =~= s@.subrange(0, i - 1));
        if s[i - 1] == c {
            return Some(i - 1);
        }
        i = i - 1;
    }
    None
}

/// The file name of a path (see `file_name_spec`).
pub fn file_name(p: &Vec<char>) -> (r: Option<Vec<char>>)
    ensures
        match r {
            Some(f) => file_name_spec(p@) == Some(f@),
            None => file_name_spec(p@) is None,
        },
{
    let mut end: usize = p.len();
    assert(p@.subrange(0, end as int) =~= p@);
    loop
        invariant
            end <= p.len(),
            file_name_spec(p@) == file_name_spec(p@.subrange(0, end as int)),
        decreases end,
    {
        let ghost q = p@.subrange(0, end as int);
        if end == 0 {
            return None;
        }
        if p[end - 1] == '/' {
            assert(q.drop_last() =~= p@.subrange(0, end - 1));
            end = end - 1;
        } else {
            let mut start: usize = end;
            while start > 0 && p[start - 1] != '/'
                invariant
                    start <= end,
                    end <= p.len(),
                    forall|k: int| start <= k < end ==> p@[k] != '/',
                decreases start,
            {
                start = start - 1;
            }
            proof {
                lemma_after_last_slash(q, start as int);
            }
            let seg_len = end - start;
            if seg_len == 1 && p[start] == '.' {
                assert(after_last_slash(q) =~= seq!['.']);
                assert(q.drop_last() =~= p@.subrange(0, end - 1));
                end = end - 1;
            } else {
                let mut seg: Vec<char> = Vec::new();
                let mut i: usize = start;
                while i < end
                    invariant
                        start <= i <= end,
                        end <= p.len(),
                        seg@ =~= p@.subrange(start as int, i as int),
                    decreases end - i,
                {
                    seg.push(p[i]);
                    i = i + 1;
                }
                assert(after_last_slash(q) =~= seg@);
                if seg_len == 2 && seg[0] == '.' && seg[1] == '.' {
                    assert(seg@ =~= seq!['.', '.']);
                    return None;
                }
                assert(seg@ != seq!['.']) by {
                    if seg@ =~= seq!['.'] {
                        assert(seg_len == 1);
                        assert(seg@[0] == p@[start as int]);
                    }
                }
                assert(seg@ != seq!['.', '.']) by {
                    if seg@ =~= seq!['.', '.'] {
                        assert(seg@[0] == '.' && seg@[1] == '.');
                    }
                }
                return Some(seg);
            }
        }
    }
}

/// The extension of a file name (see `name_extension`).
pub fn extension_of_name(f: &Vec<char>) -> (r: Option<Vec<char>>)
    ensures
        match r {
            Some(e) => name_extension(f@) == Some(e@),
            None => name_extension(f@) is None,
        },
{
    match find_last(f, '.') {
        None => None,
        Some(d) => {
            if d == 0 {
                None
            } else {
                proof {
                    lemma_last_index_of(f@, '.');
                }
                assert(d < f.len());
                let mut e: Vec<char> = Vec::new();
                let mut i: usize = d + 1;
                while i < f.len()
                    invariant
                        d < f.len(),
                        d + 1 <= i <= f.len(),
                        e@ =~= f@.subrange(d + 1, i as int),
                    decreases f.len() - i,
                {
                    e.push(f[i]);
                    i = i + 1;
                }
                Some(e)
            }
        },
    }
}

/// The stem of a file name (see `name_stem`).
pub fn stem_of_name(f: &Vec<char>) -> (r: Vec<char>)
    ensures
        r@ == name_stem(f@),
{
    match find_last(f, '.') {
        None => f.clone(),
        Some(d) => {
            if d == 0 {
                f.clone()
            } else {
                proof {
                    lemma_last_index_of(f@, '.');
                }
                let mut e: Vec<char> = Vec::new();
                let mut i: usize = 0;
                while i < d
                    invariant
                        d < f.len(),
                        i <= d,
                        e@ =~= f@.subrange(0, i as int),
                    decreases d - i,
                {
                    e.push(f[i]);
                    i = i + 1;
                }
                e
            }
        },
    }
}

/// `Path::extension` of a path.
pub fn extension(p: &Vec<char>) -> (r: Option<Vec<char>>)
    ensures
        match r {
            Some(e) => extension_spec(p@) == Some(e@),
            None => extension_spec(p@) is None,
        },
{
    match file_name(p) {
        Some(f) => extension_of_name(&f),
        None => None,
    }
}

/// `Path::file_stem` of a path.
pub fn file_stem(p: &Vec<char>) -> (r: Option<Vec<char>>)
    ensures
        match r {
            Some(s) => file_stem_spec(p@) == Some(s@),
            None => file_stem_spec(p@) is None,
        },
{
    match file_name(p) {
        Some(f) => Some(stem_of_name(&f)),
        None => None,
    }
}

/// A comic archive path: its extension is `cbz` or `zip`, ignoring ASCII case.
pub open spec fn cbz_path_spec(p: Seq<char>) -> bool {
    match extension_spec(p) {
        Some(e) => lower_seq(e) == seq!['c', 'b', 'z'] || lower_seq(e) == seq!['z', 'i', 'p'],
        None => false,
    }
}

/// Whether a dropped path is a comic archive (`.cbz` or `.zip`, any case).
pub fn is_cbz_path(p: &str) -> (r: bool)
    ensures
        r == cbz_path_spec(p@),
{
    let chars = chars_of(p);
    match extension(&chars) {
        None => false,
        Some(e) => {
            let l = lower_chars(&e);
            let cbz = vec!['c', 'b', 'z'];
            let zip = vec!['z', 'i', 'p'];
            assert(cbz@ =~= seq!['c', 'b', 'z']);
            assert(zip@ =~= seq!['z', 'i', 'p']);
            chars_equal(&l, &cbz) || chars_equal(&l, &zip)
        },
    }
}

/// The extension of a dropped file: that of its path when it has one, else
/// that of the name it was dropped under, else empty.
pub open spec fn dropped_extension_spec(path: Option<Seq<char>>, name: Seq<char>) -> Seq<char> {
    let from_path = match path {
        Some(p) => extension_spec(p),
        None => None,
    };
    match from_path {
        Some(e) => e,
        None => match extension_spec(name) {
            Some(e) => e,
            None => Seq::empty(),
        },
    }
}

/// Whether a file dropped on the page grid is a picture: its extension (of the
/// path, else of the name), lower-cased, is a picture extension.
pub fn is_dropped_image(path: Option<&str>, name: &str) -> (r: bool)
    ensures
        r == image_ext_spec(
            lower_seq(
                dropped_extension_spec(
                    match path {
                        Some(p) => Some(p@),
                        None => None,
                    },
                    name@,
                ),
            ),
        ),
{
    let from_path = match path {
        Some(p) => extension(&chars_of(p)),
        None => None,
    };
    let ext = match from_path {
        Some(e) => e,
        None => match extension(&chars_of(name)) {
            Some(e) => e,
            None => Vec::new(),
        },
    };
    let lower = string_of(&lower_chars(&ext));
    is_image_ext(lower.as_str())
}

/// The name a dropped file is inserted under: the file name of its path, or
/// else the name it was dropped under.
pub open spec fn dropped_name_spec(path: Option<Seq<char>>, name: Seq<char>) -> Seq<char> {
    let from_path = match path {
        Some(p) => file_name_spec(p),
        None => None,
    };
    match from_path {
        Some(f) => f,
        None => name,
    }
}

/// The name a dropped file is inserted under.
pub fn dropped_name(path: Option<&str>, name: &str) -> (r: String)
    ensures
        r@ == dropped_name_spec(
            match path {
                Some(p) => Some(p@),
                None => None,
            },
            name@,
        ),
{
    let from_path = match path {
        Some(p) => file_name(&chars_of(p)),
        None => None,
    };
    match from_path {
        Some(f) => string_of(&f),
        None => string_of(&chars_of(name)),
    }
}

/// The extension proposed when extracting a page: the page name's, or `jpg`.
pub open spec fn extract_ext_spec(page_name: Seq<char>) -> Seq<char> {
    match extension_spec(page_name) {
        Some(e) => e,
        None => seq!['j', 'p', 'g'],
    }
}

/// The file name proposed when extracting page `idx`: the archive's stem (or
/// `image`), ` - `, then the page's file name (or `p`, `idx` on three
/// digits, a dot and the extension).
pub open spec fn extract_name_spec(page_name: Seq<char>, archive: Option<Seq<char>>, idx: nat) -> Seq<char> {
    let stem = match archive {
        Some(a) => match file_stem_spec(a) {
            Some(s) => s,
            None => seq!['i', 'm', 'a', 'g', 'e'],
        },
        None => seq!['i', 'm', 'a', 'g', 'e'],
    };
    let base = match file_name_spec(page_name) {
        Some(f) => f,
        None => seq!['p'] + zero_padded(idx, 3) + seq!['.'] + extract_ext_spec(page_name),
    };
    stem + seq![' ', '-', ' '] + base
}

fn push_all(v: &mut Vec<char>, w: &Vec<char>)
    ensures
        final(v)@ == old(v)@ + w@,
{
    let mut i: usize = 0;
    let ghost start = v@;
    while i < w.len()
        invariant
            i <= w.len(),
            v@ =~= start + w@.subrange(0, i as int),
        decreases w.len() - i,
    {
        v.push(w[i]);
        i = i + 1;
    }
    assert(w@.subrange(0, w.len() as int) =~= w@);
}

/// The file name and extension proposed when extracting page `idx` of the
/// archive at `archive` (see `extract_name_spec` and `extract_ext_spec`).
pub fn extract_file_name(page_name: &str, archive: Option<&str>, idx: usize) -> (r: (String, String))
    ensures
        r.0@ == extract_name_spec(
            page_name@,
            match archive {
                Some(a) => Some(a@),
                None => None,
            },
            idx as nat,
        ),
        r.1@ == extract_ext_spec(page_name@),
{
    let pn = chars_of(page_name);
    let ext = match extension(&pn) {
        Some(e) => e,
        None => vec!['j', 'p', 'g'],
    };
    assert(ext@ == extract_ext_spec(page_name@));
    let stem_from = match archive {
        Some(a) => file_stem(&chars_of(a)),
        None => None,
    };
    let stem = match stem_from {
        Some(s) => s,
        None => vec!['i', 'm', 'a', 'g', 'e'],
    };
    let base = match file_name(&pn) {
        Some(f) => f,
        None => {
            let mut b: Vec<char> = vec!['p'];
            let digits = zero_padded_chars(idx as u64, 3);
            push_all(&mut b, &digits);
            b.push('.');
            push_all(&mut b, &ext);
            b
        },
    };
    let mut out = stem;
    let sep = vec![' ', '-', ' '];
    push_all(&mut out, &sep);
    push_all(&mut out, &base);
    (string_of(&out), string_of(&ext))
}

/// The word that marks an edited copy, in each interface language.
pub open spec fn edited_word(lang: Lang) -> Seq<char> {
    match lang {
        Lang::Fr => seq!['é', 'd', 'i', 't', 'é'],
        Lang::En => seq!['e', 'd', 'i', 't', 'e', 'd'],
        Lang::Es => seq!['e', 'd', 'i', 't', 'a', 'd', 'o'],
        Lang::De => seq!['b', 'e', 'a', 'r', 'b', 'e', 'i', 't', 'e', 't'],
        Lang::It => seq!['m', 'o', 'd', 'i', 'f', 'i', 'c', 'a', 't', 'o'],
    }
}

/// The file name of the edited copy saved beside the archive at `path`: the
/// archive's stem (`sortie` when it has none), then ` (`, the word for
/// "edited" in the interface language, and `).cbz`.
pub open spec fn copy_name_spec(path: Seq<char>, lang: Lang) -> Seq<char> {
    let stem = match file_stem_spec(path) {
        Some(s) => s,
        None => seq!['s', 'o', 'r', 't', 'i', 'e'],
    };
    stem + seq![' ', '('] + edited_word(lang) + seq![')', '.', 'c', 'b', 'z']
}

/// The number that tells the `k`-th edited copy apart: none for the first
/// (`k == 0`), then a space and `k + 1` (2, 3, ...).
pub open spec fn copy_number(k: nat) -> Seq<char> {
    if k == 0 {
        Seq::empty()
    } else {
        seq![' '] + decimal(k + 1)
    }
}

/// The file name of the `k`-th edited copy of the archive at `path`: as
/// `copy_name_spec`, with `copy_number(k)` after the word for "edited", as in
/// `Tome 3 (édité 2).cbz`. Saving takes the first of these names that no file
/// has, so that no file is overwritten.
pub open spec fn numbered_copy_name_spec(path: Seq<char>, lang: Lang, k: nat) -> Seq<char> {
    let stem = match file_stem_spec(path) {
        Some(s) => s,
        None => seq!['s', 'o', 'r', 't', 'i', 'e'],
    };
    stem + seq![' ', '('] + edited_word(lang) + copy_number(k) + seq![')', '.', 'c', 'b', 'z']
}

/// The file name of the `k`-th edited copy of the archive at `path` (see
/// `numbered_copy_name_spec`).
pub fn numbered_copy_name(path: &str, lang: Lang, k: u64) -> (r: String)
    requires
        k < u64::MAX,
    ensures
        r@ == numbered_copy_name_spec(path@, lang, k as nat),
{
    let mut out = match file_stem(&chars_of(path)) {
        Some(s) => s,
        None => vec!['s', 'o', 'r', 't', 'i', 'e'],
    };
    let ghost stem = out@;
    let open = vec![' ', '('];
    push_all(&mut out, &open);
    let word = match lang {
        Lang::Fr => vec!['é', 'd', 'i', 't', 'é'],
        Lang::En => vec!['e', 'd', 'i', 't', 'e', 'd'],
        Lang::Es => vec!['e', 'd', 'i', 't', 'a', 'd', 'o'],
        Lang::De => vec!['b', 'e', 'a', 'r', 'b', 'e', 'i', 't', 'e', 't'],
        Lang::It => vec!['m', 'o', 'd', 'i', 'f', 'i', 'c', 'a', 't', 'o'],
    };
    assert(word@ =~= edited_word(lang));
    push_all(&mut out, &word);
    let ghost head = out@;
    if k > 0 {
        let mut num = vec![' '];
        let digits = decimal_chars(k + 1);
        push_all(&mut num, &digits);
        assert(num@ =~= copy_number(k as nat));
        push_all(&mut out, &num);
    } else {
        assert(out@ =~= head + copy_number(k as nat));
    }
    let close = vec![')', '.', 'c', 'b', 'z'];
    push_all(&mut out, &close);
    proof {
        assert(open@ =~= seq![' ', '(']);
        assert(close@ =~= seq![')', '.', 'c', 'b', 'z']);
    }
    string_of(&out)
}

/// The file name of the edited copy of the archive at `path` (see
/// `copy_name_spec`): the first of the numbered copy names.
pub fn copy_name(path: &str, lang: Lang) -> (r: String)
    ensures
        r@ == copy_name_spec(path@, lang),
{
    let r = numbered_copy_name(path, lang, 0);
    proof {
        law_first_copy_name(path@, lang);
    }
    r
}

/// The first numbered copy name is the copy name.
pub proof fn law_first_copy_name(path: Seq<char>, lang: Lang)
    ensures
        numbered_copy_name_spec(path, lang, 0) == copy_name_spec(path, lang),
{
    let stem = match file_stem_spec(path) {
        Some(s) => s,
        None => seq!['s', 'o', 'r', 't', 'i', 'e'],
    };
    let head = stem + seq![' ', '('] + edited_word(lang);
    assert(head + copy_number(0) =~= head);
}

/// Different numbers give different copy names, so trying them in turn
/// reaches a name no file has.
#[verifier::spinoff_prover]
pub proof fn law_copy_names_differ(path: Seq<char>, lang: Lang, j: nat, k: nat)
    requires
        j != k,
    ensures
        numbered_copy_name_spec(path, lang, j) != numbered_copy_name_spec(path, lang, k),
{
    let stem = match file_stem_spec(path) {
        Some(s) => s,
        None => seq!['s', 'o', 'r', 't', 'i', 'e'],
    };
    let head = stem + seq![' ', '('] + edited_word(lang);
    let tail = seq![')', '.', 'c', 'b', 'z'];
    let a = numbered_copy_name_spec(path, lang, j);
    let b = numbered_copy_name_spec(path, lang, k);
    assert(a == head + copy_number(j) + tail);
    assert(b == head + copy_number(k) + tail);
    if a == b {
        let n = head.len();
        assert(copy_number(j).len() == copy_number(k).len());
        assert(a.subrange(n as int, (n + copy_number(j).len()) as int) =~= copy_number(j));
        assert(b.subrange(n as int, (n + copy_number(k).len()) as int) =~= copy_number(k));
        if j == 0 || k == 0 {
            assert(decimal((if j == 0 { k } else { j }) + 1).len() >= 1) by {
                reveal_with_fuel(decimal, 2);
            }
        } else {
            let dj = decimal(j + 1);
            let dk = decimal(k + 1);
            assert(copy_number(j).subrange(1, copy_number(j).len() as int) =~= dj);
            assert(copy_number(k).subrange(1, copy_number(k).len() as int) =~= dk);
            lemma_decimal_injective(j + 1, k + 1);
        }
    }
}

} // verus!
