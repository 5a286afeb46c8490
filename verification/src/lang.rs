//! The interface language: read from a locale such as `de_DE.UTF-8`, or from
//! the two-letter code it is remembered by.

use vstd::prelude::*;
use crate::text::{ascii_lower, chars_of, lower_char, string_of};

verus! {

/// The languages of the interface.
#[derive(Clone, Copy, Debug, PartialEq, Eq, Structural)]
pub enum Lang {
    Fr,
    En,
    Es,
    De,
    It,
}

/// An ASCII letter, either case.
pub open spec fn is_ascii_letter(c: char) -> bool {
    ('a' <= c && c <= 'z') || ('A' <= c && c <= 'Z')
}

/// The two-letter code of a language.
pub open spec fn code_spec(l: Lang) -> Seq<char> {
    match l {
        Lang::Fr => seq!['f', 'r'],
        Lang::En => seq!['e', 'n'],
        Lang::Es => seq!['e', 's'],
        Lang::De => seq!['d', 'e'],
        Lang::It => seq!['i', 't'],
    }
}

/// The language a locale names: the one whose code, ignoring ASCII case, is
/// its first two characters, followed by nothing or by a character other than
/// a letter (`en`, `en_GB.UTF-8`, `DE-at`); French for anything else.
pub open spec fn lang_spec(locale: Seq<char>) -> Lang {
    if locale.len() < 2 || (locale.len() > 2 && is_ascii_letter(locale[2])) {
        Lang::Fr
    } else {
        let a = ascii_lower(locale[0]);
        let b = ascii_lower(locale[1]);
        if a == 'e' && b == 'n' {
            Lang::En
        } else if a == 'e' && b == 's' {
            Lang::Es
        } else if a == 'd' && b == 'e' {
            Lang::De
        } else if a == 'i' && b == 't' {
            Lang::It
        } else {
            Lang::Fr
        }
    }
}

/// The language a locale or a remembered code names (see `lang_spec`).
pub fn lang_of_locale(locale: &str) -> (r: Lang)
    ensures
        r == lang_spec(locale@),
{
    let s = chars_of(locale);
    if s.len() < 2 {
        return Lang::Fr;
    }
    if s.len() > 2 {
        let c = s[2];
        if ('a' <= c && c <= 'z') || ('A' <= c && c <= 'Z') {
            return Lang::Fr;
        }
    }
    let a = lower_char(s[0]);
    let b = lower_char(s[1]);
    if a == 'e' && b == 'n' {
        Lang::En
    } else if a == 'e' && b == 's' {
        Lang::Es
    } else if a == 'd' && b == 'e' {
        Lang::De
    } else if a == 'i' && b == 't' {
        Lang::It
    } else {
        Lang::Fr
    }
}

/// The two-letter code a language is remembered by.
pub fn lang_code(l: Lang) -> (r: String)
    ensures
        r@ == code_spec(l),
{
    let v = match l {
        Lang::Fr => vec!['f', 'r'],
        Lang::En => vec!['e', 'n'],
        Lang::Es => vec!['e', 's'],
        Lang::De => vec!['d', 'e'],
        Lang::It => vec!['i', 't'],
    };
    assert(v@ =~= code_spec(l));
    string_of(&v)
}

/// A remembered language code reads back as the language it was written for.
pub proof fn law_code_reads_back(l: Lang)
    ensures
        lang_spec(code_spec(l)) == l,
{
}

} // verus!
