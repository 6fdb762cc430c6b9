//! Text as sequences of characters: comparison, prefixes and leading slashes.
//! Paths as they are on disk: sequences of bytes, which need not be text.

use vstd::prelude::*;
use vstd::string::*;
use vstd::utf8::{decode_utf8, valid_utf8};

use crate::model::views;

verus! {

/// Whether `a` comes strictly before `b` in the dictionary order on sequences
/// of numbers: a proper prefix comes first, otherwise the first difference
/// decides.
pub open spec fn lex_before(a: Seq<u32>, b: Seq<u32>) -> bool
    decreases a.len(),
{
    if b.len() == 0 {
        false
    } else if a.len() == 0 {
        true
    } else if a[0] != b[0] {
        a[0] < b[0]
    } else {
        lex_before(a.drop_first(), b.drop_first())
    }
}

/// The code points of `s`.
pub open spec fn code_points(s: Seq<char>) -> Seq<u32> {
    s.map_values(|c: char| c as u32)
}

/// Where a byte of a path ranks: the separator comes before everything else,
/// and the others keep their order. Comparing ranks then compares paths
/// component by component.
pub open spec fn path_rank(b: u8) -> u32 {
    if b == 47 {
        0
    } else if b < 47 {
        (b + 1) as u32
    } else {
        b as u32
    }
}

/// The ranks of the bytes of the path `p`.
pub open spec fn path_ranks(p: Seq<u8>) -> Seq<u32> {
    p.map_values(|b: u8| path_rank(b))
}

/// Whether the text `a` comes strictly before `b`, code point by code point.
pub open spec fn text_before(a: Seq<char>, b: Seq<char>) -> bool {
    lex_before(code_points(a), code_points(b))
}

/// Whether the path `a` comes strictly before `b`: the first component in
/// which they differ decides, and a leading part of a path comes before the
/// whole of it.
pub open spec fn path_before(a: Seq<u8>, b: Seq<u8>) -> bool {
    lex_before(path_ranks(a), path_ranks(b))
}

/// `c` with an upper-case ASCII letter turned into the lower-case one.
pub open spec fn ascii_lower(c: char) -> char {
    if 'A' <= c && c <= 'Z' {
        ((c as u8 + 32) as u8) as char
    } else {
        c
    }
}

/// Whether `a` and `b` are equal but for the case of ASCII letters.
pub open spec fn same_ignoring_case(a: Seq<char>, b: Seq<char>) -> bool {
    a.map_values(|c: char| ascii_lower(c)) == b.map_values(|c: char| ascii_lower(c))
}

/// Whether `s` begins with `prefix`.
pub open spec fn begins_with(s: Seq<char>, prefix: Seq<char>) -> bool {
    prefix.len() <= s.len() && s.take(prefix.len() as int) == prefix
}

/// `s` without the slashes that it begins with.
pub open spec fn without_leading_slashes(s: Seq<char>) -> Seq<char>
    decreases s.len(),
{
    if s.len() > 0 && s[0] == '/' {
        without_leading_slashes(s.drop_first())
    } else {
        s
    }
}

/// `s` with exactly one slash in front of what follows its leading slashes.
pub open spec fn rooted(s: Seq<char>) -> Seq<char> {
    seq!['/'] + without_leading_slashes(s)
}

/// Dictionary order never puts a sequence before itself.
pub proof fn lemma_lex_irreflexive(a: Seq<u32>)
    ensures
        !lex_before(a, a),
    decreases a.len(),
{
    if a.len() > 0 {
        lemma_lex_irreflexive(a.drop_first());
    }
}

/// Dictionary order is transitive.
pub proof fn lemma_lex_transitive(a: Seq<u32>, b: Seq<u32>, c: Seq<u32>)
    requires
        lex_before(a, b),
        lex_before(b, c),
    ensures
        lex_before(a, c),
    decreases a.len(),
{
    if a.len() > 0 && a[0] == b[0] && b[0] == c[0] {
        lemma_lex_transitive(a.drop_first(), b.drop_first(), c.drop_first());
    }
}

/// Of two different sequences one comes before the other in dictionary order.
pub proof fn lemma_lex_total(a: Seq<u32>, b: Seq<u32>)
    ensures
        lex_before(a, b) || lex_before(b, a) || a == b,
    decreases a.len(),
{
    if a.len() > 0 && b.len() > 0 && a[0] == b[0] {
        lemma_lex_total(a.drop_first(), b.drop_first());
        if a.drop_first() == b.drop_first() {
            assert(a =~= seq![a[0]] + a.drop_first());
            assert(b =~= seq![b[0]] + b.drop_first());
        }
    } else if a.len() == 0 && b.len() == 0 {
        assert(a =~= b);
    }
}

/// Different characters have different code points.
proof fn lemma_code_points_differ(c: char, d: char)
    ensures
        c as u32 == d as u32 ==> c == d,
{
}

/// Different bytes have different ranks.
proof fn lemma_ranks_differ(c: u8, d: u8)
    ensures
        path_rank(c) == path_rank(d) ==> c == d,
{
}

/// Texts are in a strict total order.
pub proof fn lemma_text_order(a: Seq<char>, b: Seq<char>)
    ensures
        !text_before(a, a),
        text_before(a, b) || text_before(b, a) || a == b,
        text_before(a, b) ==> !text_before(b, a),
{
    let (x, y) = (code_points(a), code_points(b));
    lemma_lex_irreflexive(x);
    lemma_lex_total(x, y);
    if lex_before(x, y) && lex_before(y, x) {
        lemma_lex_transitive(x, y, x);
    }
    if x == y {
        assert forall|i: int| 0 <= i < a.len() implies a[i] == b[i] by {
            assert(x[i] == y[i]);
            lemma_code_points_differ(a[i], b[i]);
        }
        assert(a =~= b);
    }
}

/// The order of texts is transitive.
pub proof fn lemma_text_transitive(a: Seq<char>, b: Seq<char>, c: Seq<char>)
    requires
        text_before(a, b),
        text_before(b, c),
    ensures
        text_before(a, c),
{
    lemma_lex_transitive(code_points(a), code_points(b), code_points(c));
}

/// Paths are in a strict total order.
pub proof fn lemma_path_order(a: Seq<u8>, b: Seq<u8>)
    ensures
        !path_before(a, a),
        path_before(a, b) || path_before(b, a) || a == b,
        path_before(a, b) ==> !path_before(b, a),
{
    let (x, y) = (path_ranks(a), path_ranks(b));
    lemma_lex_irreflexive(x);
    lemma_lex_total(x, y);
    if lex_before(x, y) && lex_before(y, x) {
        lemma_lex_transitive(x, y, x);
    }
    if x == y {
        assert forall|i: int| 0 <= i < a.len() implies a[i] == b[i] by {
            assert(x[i] == y[i]);
            lemma_ranks_differ(a[i], b[i]);
        }
        assert(a =~= b);
    }
}

/// The order of paths is transitive.
pub proof fn lemma_path_transitive(a: Seq<u8>, b: Seq<u8>, c: Seq<u8>)
    requires
        path_before(a, b),
        path_before(b, c),
    ensures
        path_before(a, c),
{
    lemma_lex_transitive(path_ranks(a), path_ranks(b), path_ranks(c));
}

/// What is left after the leading slashes does not begin with a slash.
pub proof fn lemma_trimmed(s: Seq<char>)
    ensures
        without_leading_slashes(without_leading_slashes(s)) == without_leading_slashes(s),
        without_leading_slashes(rooted(s)) == without_leading_slashes(s),
    decreases s.len(),
{
    assert(rooted(s).drop_first() =~= without_leading_slashes(s));
    if s.len() > 0 && s[0] == '/' {
        lemma_trimmed(s.drop_first());
    }
}

/// The characters of `s`, in order.
fn chars_of(s: &str) -> (chars: Vec<char>)
    ensures
        chars@ == s@,
{
    let mut chars: Vec<char> = Vec::new();
    for c in iter: s.chars()
        invariant
            iter.seq() == s@,
            chars@ == s@.take(iter.index()),
    {
        chars.push(c);
    }
    chars
}

/// Compares two sequences of numbers in dictionary order.
fn is_lex_before(a: &Vec<u32>, b: &Vec<u32>) -> (before: bool)
    ensures
        before == lex_before(a@, b@),
{
    let mut i: usize = 0;
    assert(a@.skip(0) == a@ && b@.skip(0) == b@);
    while i < a.len() && i < b.len() && a[i] == b[i]
        invariant
            i <= a.len(),
            i <= b.len(),
            lex_before(a@, b@) == lex_before(a@.skip(i as int), b@.skip(i as int)),
        decreases a.len() - i,
    {
        proof {
            assert(a@.skip(i as int).drop_first() == a@.skip(i + 1));
            assert(b@.skip(i as int).drop_first() == b@.skip(i + 1));
        }
        i = i + 1;
    }
    i < b.len() && (i == a.len() || a[i] < b[i])
}

/// Compares two texts code point by code point.
pub(crate) fn is_text_before(a: &str, b: &str) -> (before: bool)
    ensures
        before == text_before(a@, b@),
{
    let left = code_points_of(a);
    let right = code_points_of(b);
    is_lex_before(&left, &right)
}

/// Compares two paths component by component.
pub(crate) fn is_path_before(a: &Vec<u8>, b: &Vec<u8>) -> (before: bool)
    ensures
        before == path_before(a@, b@),
{
    let left = path_ranks_of(a);
    let right = path_ranks_of(b);
    is_lex_before(&left, &right)
}

fn code_points_of(s: &str) -> (points: Vec<u32>)
    ensures
        points@ == code_points(s@),
{
    let mut points: Vec<u32> = Vec::new();
    for c in iter: s.chars()
        invariant
            iter.seq() == s@,
            points@ == code_points(s@.take(iter.index())),
    {
        points.push(c as u32);
    }
    assert(s@.take(s@.len() as int) == s@);
    points
}

fn path_ranks_of(p: &Vec<u8>) -> (ranks: Vec<u32>)
    ensures
        ranks@ == path_ranks(p@),
{
    let mut ranks: Vec<u32> = Vec::new();
    let mut i: usize = 0;
    while i < p.len()
        invariant
            i <= p.len(),
            ranks@ == path_ranks(p@.take(i as int)),
        decreases p.len() - i,
    {
        let b: u8 = p[i];
        let rank: u32 = if b == 47 {
            0
        } else if b < 47 {
            b as u32 + 1
        } else {
            b as u32
        };
        ranks.push(rank);
        assert(p@.take(i + 1) =~= p@.take(i as int).push(b));
        i = i + 1;
    }
    assert(p@.take(p@.len() as int) == p@);
    ranks
}

/// The text that `String::from_utf8_lossy` gives for `bytes`.
pub uninterp spec fn lossy_text(bytes: Seq<u8>) -> Seq<char>;

/// Calls `String::from_utf8_lossy`. Trusted: the text is a function of the
/// bytes, named `lossy_text`, and bytes that are UTF-8 give the text that they
/// encode. Where they are not, which replacement characters stand for them is
/// left to the name.
#[verifier::external_body]
pub(crate) fn to_lossy(bytes: &Vec<u8>) -> (text: String)
    ensures
        text@ == lossy_text(bytes@),
        valid_utf8(bytes@) ==> text@ == decode_utf8(bytes@),
{
    String::from_utf8_lossy(bytes).into_owned()
}

/// Whether two texts are equal.
pub(crate) fn same_text(a: &str, b: &str) -> (same: bool)
    ensures
        same == (a@ == b@),
{
    let left = chars_of(a);
    let right = chars_of(b);
    assert(a@.take(a@.len() as int) == a@);
    left.len() == right.len() && has_prefix(&left, &right)
}

/// Whether `wanted` is one of the texts in `list`.
pub(crate) fn contains_text(list: &[String], wanted: &str) -> (found: bool)
    ensures
        found == views(list@).contains(wanted@),
{
    let mut i: usize = 0;
    while i < list.len()
        invariant
            i <= list.len(),
            forall|j: int| 0 <= j < i ==> views(list@)[j] != wanted@,
        decreases list.len() - i,
    {
        if same_text(list[i].as_str(), wanted) {
            assert(views(list@)[i as int] == wanted@);
            return true;
        }
        i = i + 1;
    }
    false
}

/// Whether `s` begins with `prefix`.
pub(crate) fn starts_with(s: &str, prefix: &str) -> (found: bool)
    ensures
        found == begins_with(s@, prefix@),
{
    let whole = chars_of(s);
    let front = chars_of(prefix);
    has_prefix(&whole, &front)
}

fn has_prefix(whole: &Vec<char>, front: &Vec<char>) -> (found: bool)
    ensures
        found == begins_with(whole@, front@),
{
    if front.len() > whole.len() {
        return false;
    }
    let mut i: usize = 0;
    while i < front.len()
        invariant
            i <= front.len() <= whole.len(),
            forall|j: int| 0 <= j < i ==> whole@[j] == front@[j],
        decreases front.len() - i,
    {
        if whole[i] != front[i] {
            proof {
                assert(whole@.take(front@.len() as int)[i as int] != front@[i as int]);
            }
            return false;
        }
        i = i + 1;
    }
    assert(whole@.take(front@.len() as int) =~= front@);
    true
}

fn lower(c: char) -> (l: char)
    ensures
        l == ascii_lower(c),
{
    if 'A' <= c && c <= 'Z' {
        (c as u8 + 32) as char
    } else {
        c
    }
}

/// Whether two texts are equal but for the case of ASCII letters.
pub(crate) fn eq_ignore_ascii_case(a: &str, b: &str) -> (same: bool)
    ensures
        same == same_ignoring_case(a@, b@),
{
    let left = chars_of(a);
    let right = chars_of(b);
    let ghost low_left = a@.map_values(|c: char| ascii_lower(c));
    let ghost low_right = b@.map_values(|c: char| ascii_lower(c));
    if left.len() != right.len() {
        proof {
            assert(low_left.len() != low_right.len());
        }
        return false;
    }
    let mut i: usize = 0;
    while i < left.len()
        invariant
            i <= left.len() == right.len(),
            left@ == a@,
            right@ == b@,
            low_left == a@.map_values(|c: char| ascii_lower(c)),
            low_right == b@.map_values(|c: char| ascii_lower(c)),
            forall|j: int| 0 <= j < i ==> low_left[j] == low_right[j],
        decreases left.len() - i,
    {
        if lower(left[i]) != lower(right[i]) {
            proof {
                assert(low_left[i as int] != low_right[i as int]);
            }
            return false;
        }
        i = i + 1;
    }
    assert(low_left =~= low_right);
    true
}

/// `s` without the slashes that it begins with.
pub(crate) fn trim_leading_slashes(s: &str) -> (rest: &str)
    ensures
        rest@ == without_leading_slashes(s@),
{
    let len = s.unicode_len();
    let mut i: usize = 0;
    assert(s@.skip(0) == s@);
    while i < len && s.get_char(i) == '/'
        invariant
            i <= len == s@.len(),
            without_leading_slashes(s@) == without_leading_slashes(s@.skip(i as int)),
        decreases len - i,
    {
        proof {
            assert(s@.skip(i as int).drop_first() == s@.skip(i + 1));
        }
        i = i + 1;
    }
    s.substring_char(i, len)
}

/// `s` with exactly one slash in front of what follows its leading slashes.
pub(crate) fn root_path(s: &str) -> (path: String)
    ensures
        path@ == rooted(s@),
{
    proof {
        reveal_strlit("/");
    }
    let mut path = "/".to_owned();
    path.append(trim_leading_slashes(s));
    assert(path@ =~= rooted(s@));
    path
}

/// Where two sequences of numbers first differ decides which comes first.
proof fn lemma_first_difference(a: Seq<u32>, b: Seq<u32>) -> (k: int)
    requires
        lex_before(a, b),
    ensures
        0 <= k <= a.len(),
        k < b.len(),
        a.take(k) == b.take(k),
        k == a.len() || a[k] < b[k],
    decreases a.len(),
{
    if a.len() > 0 && a[0] == b[0] {
        let k = lemma_first_difference(a.drop_first(), b.drop_first()) + 1;
        assert forall|i: int| 0 <= i < k implies a[i] == b[i] by {
            if i > 0 {
                assert(a.drop_first().take(k - 1)[i - 1] == b.drop_first().take(k - 1)[i - 1]);
            }
        }
        assert(a.take(k) =~= b.take(k));
        k
    } else {
        assert(a.take(0) =~= b.take(0));
        0
    }
}

proof fn lemma_difference_decides(a: Seq<u32>, b: Seq<u32>, k: int)
    requires
        0 <= k <= a.len(),
        k < b.len(),
        a.take(k) == b.take(k),
        k == a.len() || a[k] < b[k],
    ensures
        lex_before(a, b),
    decreases k,
{
    if k > 0 {
        assert(a[0] == a.take(k)[0] && b[0] == b.take(k)[0]);
        assert forall|i: int| 0 <= i < k - 1 implies a.drop_first()[i] == b.drop_first()[i] by {
            assert(a.take(k)[i + 1] == a[i + 1] && b.take(k)[i + 1] == b[i + 1]);
        }
        assert(a.drop_first().take(k - 1) =~= b.drop_first().take(k - 1));
        lemma_difference_decides(a.drop_first(), b.drop_first(), k - 1);
    }
}

/// Of two texts the one comes first that is a proper front of the other, or has
/// the smaller code point at the first place where they differ.
pub proof fn law_first_different_character_decides(a: Seq<char>, b: Seq<char>)
    ensures
        text_before(a, b) <==> exists|k: int|
            0 <= k <= a.len() && k < b.len() && #[trigger] a.take(k) == b.take(k) && (k == a.len()
                || (a[k] as u32) < (b[k] as u32)),
{
    let (x, y) = (code_points(a), code_points(b));
    if text_before(a, b) {
        let k = lemma_first_difference(x, y);
        assert forall|i: int| 0 <= i < k implies a[i] == b[i] by {
            assert(x.take(k)[i] == y.take(k)[i]);
            lemma_code_points_differ(a[i], b[i]);
        }
        assert(a.take(k) =~= b.take(k));
    }
    if exists|k: int|
        0 <= k <= a.len() && k < b.len() && #[trigger] a.take(k) == b.take(k) && (k == a.len()
            || (a[k] as u32) < (b[k] as u32)) {
        let k = choose|k: int|
            0 <= k <= a.len() && k < b.len() && #[trigger] a.take(k) == b.take(k) && (k == a.len()
                || (a[k] as u32) < (b[k] as u32));
        assert forall|i: int| 0 <= i < k implies x[i] == y[i] by {
            assert(a.take(k)[i] == b.take(k)[i]);
        }
        assert(x.take(k) =~= y.take(k));
        lemma_difference_decides(x, y, k);
    }
}

/// Of two paths the one comes first that is a proper front of the other. Where
/// they first differ, the one comes first whose component ends there, or else
/// the one with the smaller byte.
pub proof fn law_first_different_byte_decides(a: Seq<u8>, b: Seq<u8>)
    ensures
        path_before(a, b) <==> exists|k: int|
            0 <= k <= a.len() && k < b.len() && #[trigger] a.take(k) == b.take(k) && (k == a.len()
                || a[k] == 47 && b[k] != 47 || b[k] != 47 && a[k] < b[k]),
{
    let (x, y) = (path_ranks(a), path_ranks(b));
    if path_before(a, b) {
        let k = lemma_first_difference(x, y);
        assert forall|i: int| 0 <= i < k implies a[i] == b[i] by {
            assert(x.take(k)[i] == y.take(k)[i]);
            lemma_ranks_differ(a[i], b[i]);
        }
        assert(a.take(k) =~= b.take(k));
    }
    if exists|k: int|
        0 <= k <= a.len() && k < b.len() && #[trigger] a.take(k) == b.take(k) && (k == a.len()
            || a[k] == 47 && b[k] != 47 || b[k] != 47 && a[k] < b[k]) {
        let k = choose|k: int|
            0 <= k <= a.len() && k < b.len() && #[trigger] a.take(k) == b.take(k) && (k == a.len()
                || a[k] == 47 && b[k] != 47 || b[k] != 47 && a[k] < b[k]);
        assert forall|i: int| 0 <= i < k implies x[i] == y[i] by {
            assert(a.take(k)[i] == b.take(k)[i]);
        }
        assert(x.take(k) =~= y.take(k));
        lemma_difference_decides(x, y, k);
    }
}

/// Texts are equal but for case if they are of one length and differ only where
/// one has an ASCII letter in upper case and the other has it in lower case.
pub proof fn law_case_is_that_of_ascii_letters(a: Seq<char>, b: Seq<char>)
    ensures
        same_ignoring_case(a, b) <==> a.len() == b.len() && forall|i: int|
            0 <= i < a.len() ==> ({
                let (x, y) = (#[trigger] a[i] as u32, b[i] as u32);
                x == y || 65 <= x <= 90 && y == x + 32 || 65 <= y <= 90 && x == y + 32
            }),
{
    let (x, y) = (a.map_values(|c: char| ascii_lower(c)), b.map_values(|c: char| ascii_lower(c)));
    if same_ignoring_case(a, b) {
        assert(x.len() == y.len());
        assert forall|i: int| 0 <= i < a.len() implies ({
            let (x, y) = (#[trigger] a[i] as u32, b[i] as u32);
            x == y || 65 <= x <= 90 && y == x + 32 || 65 <= y <= 90 && x == y + 32
        }) by {
            assert(x[i] == y[i]);
        }
    }
    if a.len() == b.len() && forall|i: int|
        0 <= i < a.len() ==> ({
            let (x, y) = (#[trigger] a[i] as u32, b[i] as u32);
            x == y || 65 <= x <= 90 && y == x + 32 || 65 <= y <= 90 && x == y + 32
        }) {
        assert forall|i: int| 0 <= i < a.len() implies x[i] == y[i] by {
            lemma_code_points_differ(a[i], b[i]);
            lemma_code_points_differ(x[i], y[i]);
        }
        assert(x =~= y);
    }
}

/// A text begins with another if it is that one with something behind it.
pub proof fn law_front_and_rest_make_the_whole(s: Seq<char>, prefix: Seq<char>, rest: Seq<char>)
    ensures
        begins_with(prefix + rest, prefix),
        begins_with(s, prefix) ==> s == prefix + s.skip(prefix.len() as int) && prefix.len()
            <= s.len(),
{
    assert((prefix + rest).take(prefix.len() as int) =~= prefix);
    if begins_with(s, prefix) {
        assert forall|i: int| 0 <= i < prefix.len() implies s[i] == prefix[i] by {
            assert(s.take(prefix.len() as int)[i] == prefix[i]);
        }
        assert(s =~= prefix + s.skip(prefix.len() as int));
    }
}

/// What is left without the leading slashes is the end of the text, before it
/// stand slashes alone, and it does not begin with one. The rooted text has one
/// slash before that.
pub proof fn law_leading_slashes_are_cut(s: Seq<char>)
    ensures
        ({
            let rest = without_leading_slashes(s);
            let cut = s.len() - rest.len();
            &&& cut >= 0
            &&& s.skip(cut) == rest
            &&& forall|i: int| 0 <= i < cut ==> #[trigger] s[i] == '/'
            &&& rest.len() > 0 ==> rest[0] != '/'
            &&& rooted(s).len() == rest.len() + 1
            &&& rooted(s)[0] == '/'
            &&& rooted(s).skip(1) == rest
        }),
    decreases s.len(),
{
    let rest = without_leading_slashes(s);
    assert(rooted(s).skip(1) =~= rest);
    if s.len() > 0 && s[0] == '/' {
        let tail = s.drop_first();
        law_leading_slashes_are_cut(tail);
        let cut = s.len() - rest.len();
        assert(s.skip(cut) =~= tail.skip(cut - 1));
        assert forall|i: int| 0 <= i < cut implies #[trigger] s[i] == '/' by {
            if i > 0 {
                assert(tail[i - 1] == '/');
            }
        }
    } else {
        assert(s.skip(0) =~= s);
    }
}

} // verus!
