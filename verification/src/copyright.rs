//! The copyright holder of a package: where to look for a notice, how to
//! recognise one in a text, and what to report when none is found.

use vstd::prelude::*;
use vstd::string::*;
use crate::package::{Package, PackageView};
use crate::text::{text_of, texts_of};

verus! {

/// What `regex::Regex::new` makes of a pattern: whether it compiles.
pub uninterp spec fn pattern_compiles(pattern: Seq<char>) -> bool;

/// What `regex::Regex::captures` finds: the text of the first match of the
/// pattern in `text`, if there is a match.
pub uninterp spec fn first_match_of(pattern: Seq<char>, text: Seq<char>) -> Option<Seq<char>>;

/// What `regex::Regex::is_match` finds: whether the pattern matches anywhere
/// in `text`.
pub uninterp spec fn matches_somewhere(pattern: Seq<char>, text: Seq<char>) -> bool;

/// Declares `regex::Error`, the error of a pattern that does not compile, as
/// an opaque type.
#[verifier::external_type_specification]
#[verifier::external_body]
pub struct ExPatternError(regex::Error);

/// The first match of a pattern in a text.
///
/// Trusted: compiles the pattern with `regex::Regex::new` and searches with
/// `regex::Regex::captures`, of which it hands out the overall match. The
/// contract claims no more than that the outcome is a function of the pattern
/// and the text: it fails exactly when the pattern does not compile, and
/// else gives the text of the first match.
#[verifier::external_body]
fn first_match(pattern: &str, text: &str) -> (r: Result<Option<String>, regex::Error>)
    ensures
        r is Ok <==> pattern_compiles(pattern@),
        r matches Ok(found) ==> text_of(found) == first_match_of(pattern@, text@),
{
    let re = regex::Regex::new(pattern)?;
    Ok(re.captures(text).and_then(|found| found.get(0)).map(|m| m.as_str().to_string()))
}

/// Whether a pattern matches anywhere in a text.
///
/// Trusted: compiles the pattern with `regex::Regex::new` and tests with
/// `regex::Regex::is_match`. The contract claims no more than that the
/// outcome is a function of the pattern and the text.
#[verifier::external_body]
fn has_match(pattern: &str, text: &str) -> (r: Result<bool, regex::Error>)
    ensures
        r is Ok <==> pattern_compiles(pattern@),
        r matches Ok(found) ==> found == matches_somewhere(pattern@, text@),
{
    let re = regex::Regex::new(pattern)?;
    Ok(re.is_match(text))
}

/// The pattern of a copyright notice: the word, an optional sign, optional
/// years, an optional `by`, and the rest of the text.
pub open spec fn notice_pattern() -> Seq<char> {
    "(?i)copyright\\s+(?:\u{a9}|\\(c\\)\\s+)?(?:(?:[0-9 ,-]|present)+\\s+)?(?:by\\s+)?.*$"@
}

/// The pattern of what looks like a notice and names no holder: phrases of
/// license boilerplate, matched at the start of a notice.
pub open spec fn boilerplate_pattern() -> Seq<char> {
    "(?i)^(copyright(:? and license)?$|copyright (:?holder|owner|notice|license|statement)|Copyright & License -|copyright .yyyy. .name of copyright owner)"@
}

/// A pattern that the search needs does not compile.
#[derive(Clone, Copy, Debug, PartialEq, Eq, Structural)]
pub struct PatternError;

/// A notice that was found stands, unless it is boilerplate.
pub open spec fn kept_notice(notice: Seq<char>, boilerplate: bool) -> Option<Seq<char>> {
    if boilerplate {
        None
    } else {
        Some(notice)
    }
}

/// The notice that a search finds in a text: the first match of the pattern
/// `notice`, unless the pattern `boilerplate` matches in it.
pub open spec fn notice_found(
    notice: Seq<char>,
    boilerplate: Seq<char>,
    text: Seq<char>,
) -> Option<Seq<char>> {
    match first_match_of(notice, text) {
        Some(found) => kept_notice(found, matches_somewhere(boilerplate, found)),
        None => None,
    }
}

/// Whether the patterns that a search in `text` needs compile: the pattern
/// `notice`, and, where it finds something, the pattern `boilerplate`.
pub open spec fn can_search(notice: Seq<char>, boilerplate: Seq<char>, text: Seq<char>) -> bool {
    pattern_compiles(notice) && (first_match_of(notice, text) is Some ==> pattern_compiles(
        boilerplate,
    ))
}

/// The copyright notice of a text: its first match of the notice pattern,
/// unless that is boilerplate.
pub open spec fn notice_in(text: Seq<char>) -> Option<Seq<char>> {
    notice_found(notice_pattern(), boilerplate_pattern(), text)
}

/// Decides on a notice that was found, given whether it is boilerplate.
pub fn keep_notice(notice: String, boilerplate: bool) -> (r: Option<String>)
    ensures
        text_of(r) == kept_notice(notice@, boilerplate),
{
    if boilerplate {
        None
    } else {
        Some(notice)
    }
}

/// Searches `text` for the first match of the pattern `notice` that is not
/// boilerplate. Fails when a pattern that the search needs does not compile.
pub fn find_notice(notice: &str, boilerplate: &str, text: &str) -> (r: Result<
    Option<String>,
    PatternError,
>)
    ensures
        r is Ok <==> can_search(notice@, boilerplate@, text@),
        r matches Ok(found) ==> text_of(found) == notice_found(notice@, boilerplate@, text@),
{
    let found = match first_match(notice, text) {
        Ok(found) => found,
        Err(_) => {
            return Err(PatternError);
        },
    };
    match found {
        None => Ok(None),
        Some(candidate) => {
            match has_match(boilerplate, candidate.as_str()) {
                Ok(is_boilerplate) => Ok(keep_notice(candidate, is_boilerplate)),
                Err(_) => Err(PatternError),
            }
        },
    }
}

/// Looks for a copyright notice in the text of a file.
pub fn lookup_copyright(text: &str) -> (r: Result<Option<String>, PatternError>)
    ensures
        r is Ok <==> can_search(notice_pattern(), boilerplate_pattern(), text@),
        r matches Ok(found) ==> text_of(found) == notice_in(text@),
{
    find_notice(
        "(?i)copyright\\s+(?:\u{a9}|\\(c\\)\\s+)?(?:(?:[0-9 ,-]|present)+\\s+)?(?:by\\s+)?.*$",
        "(?i)^(copyright(:? and license)?$|copyright (:?holder|owner|notice|license|statement)|Copyright & License -|copyright .yyyy. .name of copyright owner)",
        text,
    )
}

/// The names of the files that may hold a copyright notice, in the order in
/// which they are searched.
pub open spec fn locations() -> Seq<Seq<char>> {
    seq![
        "license"@,
        "LICENSE"@,
        "license.md"@,
        "LICENSE.md"@,
        "LICENSE.txt"@,
        "License.txt"@,
        "license.txt"@,
        "LICENSE-APACHE"@,
        "LICENSE-MIT"@,
        "COPYING"@,
        "NOTICE"@,
        "README"@,
        "README.md"@,
        "README.mdown"@,
        "README.markdown"@,
        "COPYRIGHT"@,
        "COPYRIGHT.txt"@,
    ]
}

/// The names of the files that may hold a copyright notice.
pub fn copyright_locations() -> (r: Vec<String>)
    ensures
        texts_of(r@) == locations(),
{
    let mut r: Vec<String> = Vec::new();
    r.push("license".to_owned());
    r.push("LICENSE".to_owned());
    r.push("license.md".to_owned());
    r.push("LICENSE.md".to_owned());
    r.push("LICENSE.txt".to_owned());
    r.push("License.txt".to_owned());
    r.push("license.txt".to_owned());
    r.push("LICENSE-APACHE".to_owned());
    r.push("LICENSE-MIT".to_owned());
    r.push("COPYING".to_owned());
    r.push("NOTICE".to_owned());
    r.push("README".to_owned());
    r.push("README.md".to_owned());
    r.push("README.mdown".to_owned());
    r.push("README.markdown".to_owned());
    r.push("COPYRIGHT".to_owned());
    r.push("COPYRIGHT.txt".to_owned());
    r
}

/// The texts of `parts`, joined by a comma and a space.
pub open spec fn comma_joined(parts: Seq<Seq<char>>) -> Seq<char>
    decreases parts.len(),
{
    if parts.len() == 0 {
        Seq::empty()
    } else if parts.len() == 1 {
        parts[0]
    } else {
        comma_joined(parts.drop_last()) + seq![',', ' '] + parts.last()
    }
}

/// The holder that is reported for a package without a notice: its authors,
/// or, where it names none, `The <name> Authors`.
pub open spec fn fallback(name: Seq<char>, authors: Seq<Seq<char>>) -> Seq<char> {
    if authors.len() == 0 {
        seq!['T', 'h', 'e', ' '] + name + seq![' ', 'A', 'u', 't', 'h', 'o', 'r', 's']
    } else {
        comma_joined(authors)
    }
}

/// The holder that is reported for a package without a notice.
pub fn fallback_copyright(name: &str, authors: &Vec<String>) -> (r: String)
    ensures
        r@ == fallback(name@, texts_of(authors@)),
{
    if authors.len() == 0 {
        proof {
            reveal_strlit("The ");
            reveal_strlit(" Authors");
        }
        let mut r: String = "The ".to_owned();
        r.append(name);
        r.append(" Authors");
        r
    } else {
        proof {
            reveal_strlit(", ");
            assert(", "@ =~= seq![',', ' ']);
        }
        let ghost parts = texts_of(authors@);
        let mut r: String = authors[0].clone();
        let mut i: usize = 1;
        while i < authors.len()
            invariant
                1 <= i <= authors@.len(),
                parts == texts_of(authors@),
                ", "@ == seq![',', ' '],
                r@ == comma_joined(parts.subrange(0, i as int)),
            decreases authors@.len() - i,
        {
            let ghost upto = parts.subrange(0, i + 1);
            assert(upto.drop_last() =~= parts.subrange(0, i as int));
            r.append(", ");
            r.append(authors[i].as_str());
            i = i + 1;
        }
        assert(parts.subrange(0, authors@.len() as int) =~= parts);
        r
    }
}

/// The files of a package that are searched, in order: the declared license
/// file, then the usual locations. All are relative to the directory of the
/// package's manifest.
pub open spec fn candidates(p: PackageView) -> Seq<Seq<char>> {
    match p.license_file {
        Some(file) => seq![file] + locations(),
        None => locations(),
    }
}

/// What to do next in the search for a package's copyright holder.
#[derive(Clone, Debug, PartialEq, Eq)]
pub enum Lookup {
    /// Read this file and look for a notice in it. The file is the declared
    /// license file: that it cannot be read is an error.
    Read(String),
    /// Read this file, if it is one, and look for a notice in it.
    ReadIfFile(String),
    /// The search is over: this is the copyright holder.
    Done(String),
}

/// The mathematical content of a `Lookup`.
pub ghost enum LookupView {
    Read(Seq<char>),
    ReadIfFile(Seq<char>),
    Done(Seq<char>),
}

impl View for Lookup {
    type V = LookupView;

    open spec fn view(&self) -> LookupView {
        match self {
            Lookup::Read(file) => LookupView::Read(file@),
            Lookup::ReadIfFile(file) => LookupView::ReadIfFile(file@),
            Lookup::Done(holder) => LookupView::Done(holder@),
        }
    }
}

/// The next step of the search, after `tried` files, the last of which gave
/// `found`. A notice that was found ends the search. Else the next file is to
/// be read. When none is left, the search ends with the fallback.
pub open spec fn next_lookup(p: PackageView, tried: nat, found: Option<Seq<char>>) -> LookupView {
    match found {
        Some(notice) => LookupView::Done(notice),
        None => {
            if tried >= candidates(p).len() {
                LookupView::Done(fallback(p.name, p.authors))
            } else if tried == 0 && p.license_file is Some {
                LookupView::Read(candidates(p)[0])
            } else {
                LookupView::ReadIfFile(candidates(p)[tried as int])
            }
        },
    }
}

/// The next step of the search for the copyright holder of `package`, after
/// `tried` files, the last of which gave `found`.
pub fn lookup_step(package: &Package, tried: usize, found: Option<String>) -> (r: Lookup)
    ensures
        r@ == next_lookup(package@, tried as nat, text_of(found)),
{
    if let Some(notice) = found {
        return Lookup::Done(notice);
    }
    let usual = copyright_locations();
    match &package.license_file {
        Some(file) => {
            if tried == 0 {
                Lookup::Read(file.clone())
            } else if tried - 1 < usual.len() {
                Lookup::ReadIfFile(usual[tried - 1].clone())
            } else {
                Lookup::Done(fallback_copyright(package.name.as_str(), &package.authors))
            }
        },
        None => {
            if tried < usual.len() {
                Lookup::ReadIfFile(usual[tried].clone())
            } else {
                Lookup::Done(fallback_copyright(package.name.as_str(), &package.authors))
            }
        },
    }
}

} // verus!
