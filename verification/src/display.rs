//! How paths are shown in the picker.

use vstd::prelude::*;
use crate::text::{
    all_digits, decimal, decimal_string, is_digit, lemma_decimal_digits, lemma_leading_digits,
    lemma_leading_digits_prefix, leading_digits, parse_u64_spec,
};

verus! {

/// What remains of `path` after the leading components that make up
/// `base`, as `Path::strip_prefix` finds it, or `None` when `base` is not a
/// prefix of `path` component by component.
pub uninterp spec fn stripped_path(path: Seq<char>, base: Seq<char>) -> Option<Seq<char>>;

/// The text of an optional string.
pub open spec fn opt_view(o: Option<String>) -> Option<Seq<char>> {
    match o {
        Some(s) => Some(s@),
        None => None,
    }
}

/// Trusted: `std::path::Path::strip_prefix`, the rest converted to text
/// by `Path::to_string_lossy` (lossless here, the rest being a piece of a
/// `str`). The rest is named `stripped_path`; as its documentation shows, a
/// path stripped of itself leaves nothing.
#[verifier::external_body]
fn strip_path_prefix(path: &str, base: &str) -> (r: Option<String>)
    ensures
        opt_view(r) == stripped_path(path@, base@),
        path@ == base@ ==> opt_view(r) == Some(Seq::<char>::empty()),
{
    match std::path::Path::new(path).strip_prefix(base) {
        Ok(rest) => Some(rest.to_string_lossy().into_owned()),
        Err(_) => None,
    }
}

/// How a path shows: `~` for the home directory itself, `~/` and the rest
/// for a path under it, the path unchanged otherwise.
pub open spec fn shown_path(path: Seq<char>, under_home: Option<Seq<char>>) -> Seq<char> {
    match under_home {
        Some(rest) => if rest.len() == 0 {
            seq!['~']
        } else {
            seq!['~', '/'] + rest
        },
        None => path,
    }
}

/// Shows `path` given what remains of it under the home directory
/// (`None` when it lies outside).
pub fn home_relative(path: &str, under_home: Option<String>) -> (s: String)
    ensures
        s@ == shown_path(path@, opt_view(under_home)),
        match under_home {
            Some(rest) => if rest@.len() == 0 {
                s@ == seq!['~']
            } else {
                s@ == seq!['~', '/'] + rest@
            },
            None => s@ == path@,
        },
{
    match under_home {
        Some(rest) => {
            if rest.as_str().is_empty() {
                proof {
                    reveal_strlit("~");
                }
                String::from_str("~")
            } else {
                let mut s = String::from_str("~/");
                s.append(rest.as_str());
                proof {
                    reveal_strlit("~/");
                }
                s
            }
        },
        None => String::from_str(path),
    }
}

/// Shows `path` relative to `home`: `~` for the home directory itself,
/// `~/rest` for a path under it, the path unchanged otherwise.
pub fn display_path(path: &str, home: &str) -> (s: String)
    ensures
        s@ == shown_path(path@, stripped_path(path@, home@)),
        path@ == home@ ==> s@ == seq!['~'],
        match stripped_path(path@, home@) {
            Some(rest) => if rest.len() == 0 {
                s@ == seq!['~']
            } else {
                s@ == seq!['~', '/'] + rest
            },
            None => s@ == path@,
        },
{
    let under_home = strip_path_prefix(path, home);
    home_relative(path, under_home)
}

/// The label of the `i`-th choice (from 0) of the picker: its number from 1,
/// two spaces, and the path as `display_path` shows it.
pub open spec fn menu_label(i: int, path: Seq<char>, home: Seq<char>) -> Seq<char> {
    decimal((i + 1) as nat) + seq![' ', ' '] + shown_path(path, stripped_path(path, home))
}

/// The labels of the picker's choices, one for each path in order.
pub fn menu_labels(paths: &Vec<String>, home: &str) -> (labels: Vec<String>)
    ensures
        labels@.len() == paths@.len(),
        forall|i: int|
            0 <= i < paths@.len() ==> #[trigger] labels@[i]@ == menu_label(i, paths@[i]@, home@),
        forall|i: int|
            0 <= i < paths@.len() ==> #[trigger] labels@[i]@ == decimal((i + 1) as nat) + seq![
                ' ',
                ' ',
            ] + shown_path(paths@[i]@, stripped_path(paths@[i]@, home@)),
{
    let mut labels: Vec<String> = Vec::new();
    for i in 0..paths.len()
        invariant
            labels@.len() == i,
            forall|k: int|
                0 <= k < i ==> #[trigger] labels@[k]@ == menu_label(k, paths@[k]@, home@),
    {
        let mut label = decimal_string(i + 1);
        label.append("  ");
        let shown = display_path(paths[i].as_str(), home);
        label.append(shown.as_str());
        proof {
            reveal_strlit("  ");
        }
        labels.push(label);
    }
    labels
}


/// A path under the home directory with something left shows as `~/`
/// followed by exactly what is left, whatever that begins with; the home
/// directory itself shows as `~`; any other path shows unchanged.
pub proof fn lemma_shown_under_home(path: Seq<char>, rest: Seq<char>)
    ensures
        rest.len() > 0 ==> shown_path(path, Some(rest)) == seq!['~', '/'] + rest,
        rest.len() > 0 ==> shown_path(path, Some(rest)).skip(2) == rest,
        shown_path(path, Some(Seq::<char>::empty())) == seq!['~'],
        shown_path(path, None) == path,
{
    assert((seq!['~', '/'] + rest).skip(2) =~= rest);
}

/// The label of choice `i` starts with the number `i + 1`, read back as
/// such, followed by two spaces.
pub proof fn lemma_label_number(i: nat, path: Seq<char>, home: Seq<char>)
    requires
        i < u64::MAX,
    ensures
        ({
            let l = menu_label(i as int, path, home);
            let k = decimal(i + 1).len() as int;
            &&& leading_digits(l) == k
            &&& parse_u64_spec(l.take(k)) == Some((i + 1) as u64)
            &&& l[k] == ' '
            &&& l[k + 1] == ' '
        }),
{
    let d = decimal(i + 1);
    let t = seq![' ', ' '] + shown_path(path, stripped_path(path, home));
    let l = menu_label(i as int, path, home);
    assert(l =~= d + t);
    lemma_decimal_digits(i + 1);
    assert(!is_digit(t[0]));
    lemma_leading_digits_prefix(d, t);
    assert(l.take(d.len() as int) =~= d);
    crate::text::lemma_decimal_parses((i + 1) as u64);
}

/// Different choices carry different numbers, so no two labels are the same.
pub proof fn lemma_labels_differ(
    i: nat,
    j: nat,
    p1: Seq<char>,
    p2: Seq<char>,
    home: Seq<char>,
)
    requires
        i < u64::MAX,
        j < u64::MAX,
        i != j,
    ensures
        menu_label(i as int, p1, home) != menu_label(j as int, p2, home),
{
    lemma_label_number(i, p1, home);
    lemma_label_number(j, p2, home);
    let l1 = menu_label(i as int, p1, home);
    let l2 = menu_label(j as int, p2, home);
    if l1 == l2 {
        let k = leading_digits(l1) as int;
        assert(l1.take(k) == l2.take(k));
    }
}

} // verus!
