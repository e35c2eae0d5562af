//! The high-score list: the textual form of the two stored lists and the
//! insert-or-replace update policy.  Reading and writing the score file is
//! the driver's job; this module only computes.

use vstd::prelude::*;
use vstd::seq_lib::group_to_multiset_ensures;
use vstd::seq_lib::to_multiset_update;
use vstd::string::StrSliceExecFns;
use vstd::string::StringExecFns;

verus! {

/// At most this many historical entries are kept per list.
pub const NUM_HIGHSCORES: usize = 5;

/// Ascending order.
pub open spec fn sorted_asc(s: Seq<u32>) -> bool {
    forall|i: int, j: int| 0 <= i < j < s.len() ==> s[i] <= s[j]
}

/// Exchanging two positions of a sequence keeps its multiset of elements.
proof fn lemma_swap_multiset(s: Seq<u32>, i: int, j: int)
    requires
        0 <= i < j < s.len(),
    ensures
        s.update(i, s[j]).update(j, s[i]).to_multiset() == s.to_multiset(),
{
    broadcast use group_to_multiset_ensures, to_multiset_update;

    let x = s[i];
    let y = s[j];
    assert(s.contains(x)) by {
        assert(s[i] == x);
    }
    assert(s.to_multiset().count(x) > 0);
    let s1 = s.update(i, y);
    assert(s1[j] == y);
    assert(s1.to_multiset() == s.to_multiset().insert(y).remove(x));
    assert(s1.update(j, x).to_multiset() == s1.to_multiset().insert(x).remove(y));
    assert(s.to_multiset().insert(y).remove(x).insert(x).remove(y) =~= s.to_multiset());
}

/// Sorts the list ascending (insertion sort), keeping its elements.
fn sort_scores(v: &mut Vec<u32>)
    ensures
        sorted_asc(final(v)@),
        final(v)@.to_multiset() == old(v)@.to_multiset(),
        final(v)@.len() == old(v)@.len(),
{
    let mut i: usize = 1;
    while i < v.len()
        invariant
            i >= 1,
            v@.len() == old(v)@.len(),
            v@.to_multiset() == old(v)@.to_multiset(),
            forall|a: int, b: int| 0 <= a < b < i && b < v@.len() ==> v@[a] <= v@[b],
        decreases v@.len() - i,
    {
        let mut j: usize = i;
        while j > 0 && v[j - 1] > v[j]
            invariant
                j <= i < v@.len(),
                v@.len() == old(v)@.len(),
                v@.to_multiset() == old(v)@.to_multiset(),
                forall|a: int, b: int| 0 <= a < b <= i && b != j ==> v@[a] <= v@[b],
            decreases j,
        {
            let ghost s = v@;
            let x = v[j - 1];
            let y = v[j];
            v[j - 1] = y;
            v[j] = x;
            proof {
                assert(v@ =~= s.update(j - 1, s[j as int]).update(j as int, s[j - 1]));
                lemma_swap_multiset(s, j - 1, j as int);
            }
            j = j - 1;
        }
        proof {
            assert forall|a: int, b: int| 0 <= a < b <= i implies v@[a] <= v@[b] by {
                if b == j {
                    if a < j - 1 {
                        assert(v@[a] <= v@[j - 1]);
                    }
                }
            }
        }
        i = i + 1;
    }
}

/// The decimal digit character for a value 0 through 9.
pub open spec fn spec_digit_char(d: int) -> char {
    if d == 0 {
        '0'
    } else if d == 1 {
        '1'
    } else if d == 2 {
        '2'
    } else if d == 3 {
        '3'
    } else if d == 4 {
        '4'
    } else if d == 5 {
        '5'
    } else if d == 6 {
        '6'
    } else if d == 7 {
        '7'
    } else if d == 8 {
        '8'
    } else {
        '9'
    }
}

/// The decimal text of a nonnegative number, most significant digit first.
pub open spec fn spec_u32_chars(n: int) -> Seq<char>
    decreases n,
{
    if n < 10 {
        seq![spec_digit_char(n)]
    } else {
        spec_u32_chars(n / 10) + seq![spec_digit_char(n % 10)]
    }
}

/// The texts of the entries, joined with single spaces.
pub open spec fn spec_join_scores(s: Seq<u32>) -> Seq<char>
    decreases s.len(),
{
    if s.len() == 0 {
        Seq::empty()
    } else if s.len() == 1 {
        spec_u32_chars(s[0] as int)
    } else {
        spec_u32_chars(s[0] as int) + seq![' '] + spec_join_scores(s.drop_first())
    }
}

/// The two-line text of the stored lists: the scores, a newline, the line
/// counts, a newline.
pub open spec fn spec_scores_file(scores: Seq<u32>, lines: Seq<u32>) -> Seq<char> {
    spec_join_scores(scores) + seq!['\n'] + spec_join_scores(lines) + seq!['\n']
}

/// Appending one more entry appends a space (unless the list was empty) and
/// the entry's text.
proof fn lemma_join_snoc(s: Seq<u32>, v: u32)
    ensures
        spec_join_scores(s.push(v)) == if s.len() == 0 {
            spec_u32_chars(v as int)
        } else {
            spec_join_scores(s) + seq![' '] + spec_u32_chars(v as int)
        },
    decreases s.len(),
{
    let p = s.push(v);
    if s.len() == 0 {
        assert(p.len() == 1 && p[0] == v);
    } else {
        lemma_join_snoc(s.drop_first(), v);
        assert(p.drop_first() =~= s.drop_first().push(v));
        assert(p[0] == s[0]);
        if s.len() == 1 {
            assert(spec_join_scores(p) == spec_u32_chars(s[0] as int) + seq![' ']
                + spec_u32_chars(v as int));
        } else {
            assert(spec_join_scores(p) == spec_u32_chars(s[0] as int) + seq![' '] + (
            spec_join_scores(s.drop_first()) + seq![' '] + spec_u32_chars(v as int)));
            assert(spec_u32_chars(s[0] as int) + seq![' '] + (spec_join_scores(s.drop_first())
                + seq![' '] + spec_u32_chars(v as int)) =~= (spec_u32_chars(s[0] as int)
                + seq![' '] + spec_join_scores(s.drop_first())) + seq![' '] + spec_u32_chars(
                v as int,
            ));
        }
    }
}

/// The digit characters of `low` in reverse: the tail a digit-collection
/// loop has produced, least significant digit last pushed.
spec fn spec_rev_digit_chars(low: Seq<u8>) -> Seq<char> {
    Seq::new(low.len(), |i: int| spec_digit_char(low[low.len() - 1 - i] as int))
}

/// The one-character text of a decimal digit.
fn digit_str(d: u8) -> (s: &'static str)
    requires
        d < 10,
    ensures
        s@ == seq![spec_digit_char(d as int)],
{
    proof {
        reveal_strlit("0");
        reveal_strlit("1");
        reveal_strlit("2");
        reveal_strlit("3");
        reveal_strlit("4");
        reveal_strlit("5");
        reveal_strlit("6");
        reveal_strlit("7");
        reveal_strlit("8");
        reveal_strlit("9");
        assert("0"@ =~= seq!['0']);
        assert("1"@ =~= seq!['1']);
        assert("2"@ =~= seq!['2']);
        assert("3"@ =~= seq!['3']);
        assert("4"@ =~= seq!['4']);
        assert("5"@ =~= seq!['5']);
        assert("6"@ =~= seq!['6']);
        assert("7"@ =~= seq!['7']);
        assert("8"@ =~= seq!['8']);
        assert("9"@ =~= seq!['9']);
    }
    match d {
        0 => "0",
        1 => "1",
        2 => "2",
        3 => "3",
        4 => "4",
        5 => "5",
        6 => "6",
        7 => "7",
        8 => "8",
        _ => "9",
    }
}

/// The decimal text of `n`.
fn format_u32(n: u32) -> (s: String)
    ensures
        s@ == spec_u32_chars(n as int),
{
    let mut low: Vec<u8> = Vec::new();
    let mut m: u32 = n;
    proof {
        assert(spec_rev_digit_chars(low@) =~= Seq::<char>::empty());
        assert(spec_u32_chars(n as int) =~= spec_u32_chars(m as int) + spec_rev_digit_chars(low@));
    }
    while m >= 10
        invariant
            spec_u32_chars(n as int) == spec_u32_chars(m as int) + spec_rev_digit_chars(low@),
            forall|i: int| 0 <= i < low@.len() ==> low@[i] < 10,
        decreases m,
    {
        let ghost lo = low@;
        let d = (m % 10) as u8;
        low.push(d);
        proof {
            assert(spec_rev_digit_chars(low@) =~= seq![spec_digit_char(d as int)]
                + spec_rev_digit_chars(lo));
            assert(spec_u32_chars(m as int) == spec_u32_chars(m as int / 10) + seq![
                spec_digit_char(m as int % 10),
            ]);
            assert(spec_u32_chars(m as int / 10) + seq![spec_digit_char(m as int % 10)]
                + spec_rev_digit_chars(lo) =~= spec_u32_chars(m as int / 10) + (seq![
                spec_digit_char(d as int),
            ] + spec_rev_digit_chars(lo)));
        }
        m = m / 10;
    }
    let mut s = String::new();
    s.append(digit_str(m as u8));
    let ghost head = seq![spec_digit_char(m as int)];
    proof {
        assert(s@ == head + spec_rev_digit_chars(low@).take(0));
        assert(head + spec_rev_digit_chars(low@).take(0) =~= head);
    }
    let count = low.len();
    let mut j: usize = 0;
    while j < count
        invariant
            j <= count,
            count == low@.len(),
            forall|i: int| 0 <= i < low@.len() ==> low@[i] < 10,
            head == seq![spec_digit_char(m as int)],
            s@ == head + spec_rev_digit_chars(low@).take(j as int),
        decreases count - j,
    {
        let d = low[count - 1 - j];
        s.append(digit_str(d));
        proof {
            let rev = spec_rev_digit_chars(low@);
            assert(rev[j as int] == spec_digit_char(d as int));
            assert(rev.take(j as int + 1) =~= rev.take(j as int).push(rev[j as int]));
            assert(head + rev.take(j as int) + seq![spec_digit_char(d as int)] =~= head + rev.take(
                j as int + 1,
            ));
        }
        j = j + 1;
    }
    proof {
        assert(spec_rev_digit_chars(low@).take(low@.len() as int) =~= spec_rev_digit_chars(low@));
        assert(head + spec_rev_digit_chars(low@) == spec_u32_chars(m as int)
            + spec_rev_digit_chars(low@));
    }
    s
}

/// The whitespace-joined decimal texts of the entries, as the score file
/// stores one list per line.
pub fn slice_to_string(slice: &[u32]) -> (s: String)
    ensures
        s@ == spec_join_scores(slice@),
{
    let mut s = String::new();
    let mut i: usize = 0;
    proof {
        assert(slice@.take(0) =~= Seq::<u32>::empty());
    }
    while i < slice.len()
        invariant
            i <= slice@.len(),
            s@ == spec_join_scores(slice@.take(i as int)),
        decreases slice@.len() - i,
    {
        let ghost pre = s@;
        if i > 0 {
            proof {
                reveal_strlit(" ");
            }
            s.append(" ");
            proof {
                assert(" "@ =~= seq![' ']);
            }
        }
        let t = format_u32(slice[i]);
        s.append(t.as_str());
        proof {
            lemma_join_snoc(slice@.take(i as int), slice@[i as int]);
            assert(slice@.take(i as int).push(slice@[i as int]) =~= slice@.take(i as int + 1));
            if i > 0 {
                assert(s@ =~= spec_join_scores(slice@.take(i as int)) + seq![' ']
                    + spec_u32_chars(slice@[i as int] as int));
            } else {
                assert(s@ =~= spec_u32_chars(slice@[i as int] as int));
            }
        }
        i = i + 1;
    }
    proof {
        assert(slice@.take(slice@.len() as int) =~= slice@);
    }
    s
}

/// The full two-line text the score file stores: both lists, each followed
/// by a newline.
pub fn format_highscores_and_lines(highscores: &[u32], number_of_lines: &[u32]) -> (s: String)
    ensures
        s@ == spec_scores_file(highscores@, number_of_lines@),
{
    proof {
        reveal_strlit("\n");
    }
    let mut s = slice_to_string(highscores);
    s.append("\n");
    let second = slice_to_string(number_of_lines);
    s.append(second.as_str());
    s.append("\n");
    proof {
        assert("\n"@ =~= seq!['\n']);
        assert(s@ =~= spec_scores_file(highscores@, number_of_lines@));
    }
    s
}

/// Whether a character is a decimal digit.
pub open spec fn spec_is_digit(c: char) -> bool {
    ('0' as int) <= c as int && c as int <= ('9' as int)
}

/// The numeric value of a digit character.
pub open spec fn spec_digit_val(c: char) -> int {
    c as int - ('0' as int)
}

/// Every character of the sequence is a decimal digit.
pub open spec fn spec_all_digits(s: Seq<char>) -> bool {
    forall|i: int| 0 <= i < s.len() ==> spec_is_digit(#[trigger] s[i])
}

/// The value of a digit string read in base 10.
pub open spec fn spec_digits_val(s: Seq<char>) -> int
    decreases s.len(),
{
    if s.len() == 0 {
        0
    } else {
        spec_digits_val(s.drop_last()) * 10 + spec_digit_val(s.last())
    }
}

/// How a token is read as a number: an optional leading '+', then one or
/// more decimal digits whose value fits in a u32; any other token reads as
/// nothing.
pub open spec fn spec_parse_u32(t: Seq<char>) -> Option<u32> {
    let d = if t.len() > 0 && t[0] == '+' {
        t.drop_first()
    } else {
        t
    };
    if d.len() > 0 && spec_all_digits(d) && spec_digits_val(d) <= u32::MAX {
        Some(spec_digits_val(d) as u32)
    } else {
        None
    }
}

/// The position of the first occurrence of `sep`, or the length when it
/// does not occur.
pub open spec fn spec_first_sep(s: Seq<char>, sep: char) -> nat
    decreases s.len(),
{
    if s.len() == 0 {
        0
    } else if s[0] == sep {
        0
    } else {
        1 + spec_first_sep(s.drop_first(), sep)
    }
}

/// The first-separator position never exceeds the length.
pub proof fn lemma_first_sep_le(s: Seq<char>, sep: char)
    ensures
        spec_first_sep(s, sep) <= s.len(),
    decreases s.len(),
{
    if s.len() > 0 && s[0] != sep {
        lemma_first_sep_le(s.drop_first(), sep);
    }
}

/// A position with no separator before it, and a separator (or the end) at
/// it, is the first-separator position.
pub proof fn lemma_first_sep_is(s: Seq<char>, sep: char, k: int)
    requires
        0 <= k <= s.len(),
        forall|i: int| 0 <= i < k ==> s[i] != sep,
        k < s.len() ==> s[k] == sep,
    ensures
        spec_first_sep(s, sep) == k,
    decreases s.len(),
{
    if s.len() > 0 && k > 0 {
        assert(s[0] != sep);
        lemma_first_sep_is(s.drop_first(), sep, k - 1);
    }
}

/// How a stored line is read: it splits into tokens at every single space,
/// each token is read as a number, and the tokens that do not read as one
/// are dropped.
pub open spec fn spec_parsed_scores(s: Seq<char>) -> Seq<u32>
    decreases s.len(),
{
    let cut = spec_first_sep(s, ' ') as int;
    let head = spec_parse_u32(s.take(cut));
    let rest = if cut < s.len() {
        proof {
            lemma_first_sep_le(s, ' ');
        }
        spec_parsed_scores(s.skip(cut + 1))
    } else {
        Seq::<u32>::empty()
    };
    match head {
        Some(v) => seq![v] + rest,
        None => rest,
    }
}

/// How the score file's content is read: the score line runs to the first
/// newline (a content without a newline is rejected), the line-count line
/// runs from there to the next newline or the end, and each line is read
/// as a list of numbers.  Anything after the second newline is ignored.
pub open spec fn spec_parse_content(s: Seq<char>) -> Option<(Seq<u32>, Seq<u32>)> {
    let cut = spec_first_sep(s, '\n') as int;
    if cut < s.len() {
        let rest = s.skip(cut + 1);
        let cut2 = spec_first_sep(rest, '\n') as int;
        Some((spec_parsed_scores(s.take(cut)), spec_parsed_scores(rest.take(cut2))))
    } else {
        None
    }
}

/// A number's decimal text is nonempty, all digits, and reads back to the
/// number itself.
proof fn lemma_u32_chars_digits(n: int)
    requires
        n >= 0,
    ensures
        spec_u32_chars(n).len() >= 1,
        spec_all_digits(spec_u32_chars(n)),
        spec_digits_val(spec_u32_chars(n)) == n,
    decreases n,
{
    let s = spec_u32_chars(n);
    if n < 10 {
        assert(s == seq![spec_digit_char(n)]);
        assert(s.drop_last() =~= Seq::<char>::empty());
        assert(spec_digits_val(Seq::<char>::empty()) == 0);
        assert(spec_digits_val(s) == spec_digit_val(spec_digit_char(n)));
    } else {
        lemma_u32_chars_digits(n / 10);
        let a = spec_u32_chars(n / 10);
        let c = spec_digit_char(n % 10);
        assert(s == a + seq![c]);
        assert(s.drop_last() =~= a);
        assert(s.last() == c);
        assert(spec_digits_val(s) == spec_digits_val(a) * 10 + spec_digit_val(c));
        assert forall|i: int| 0 <= i < s.len() implies spec_is_digit(#[trigger] s[i]) by {
            if i < a.len() {
                assert(s[i] == a[i]);
            } else {
                assert(s[i] == c);
            }
        }
    }
}

/// A number's decimal text reads back as exactly that number.
proof fn lemma_parse_u32_of_chars(n: u32)
    ensures
        spec_parse_u32(spec_u32_chars(n as int)) == Some(n),
{
    lemma_u32_chars_digits(n as int);
    let t = spec_u32_chars(n as int);
    assert(spec_is_digit(t[0]));
    assert(t[0] != '+');
    assert(spec_parse_u32(t) == Some(spec_digits_val(t) as u32));
}

/// A joined list's text holds only digits and spaces.
proof fn lemma_join_chars(h: Seq<u32>)
    ensures
        forall|i: int|
            0 <= i < spec_join_scores(h).len() ==> spec_is_digit(#[trigger] spec_join_scores(h)[i])
                || spec_join_scores(h)[i] == ' ',
    decreases h.len(),
{
    let s = spec_join_scores(h);
    if h.len() == 0 {
    } else if h.len() == 1 {
        lemma_u32_chars_digits(h[0] as int);
    } else {
        lemma_u32_chars_digits(h[0] as int);
        lemma_join_chars(h.drop_first());
        let a = spec_u32_chars(h[0] as int);
        let tail = spec_join_scores(h.drop_first());
        assert(s == a + seq![' '] + tail);
        assert forall|i: int| 0 <= i < s.len() implies spec_is_digit(#[trigger] s[i]) || s[i]
            == ' ' by {
            if i < a.len() {
                assert(s[i] == a[i]);
            } else if i == a.len() {
                assert(s[i] == ' ');
            } else {
                assert(s[i] == tail[i - a.len() - 1]);
            }
        }
    }
}

/// Law: one stored line round-trips; reading the whitespace-joined text of
/// a list yields the list itself.
pub proof fn lemma_parsed_scores_of_join(h: Seq<u32>)
    ensures
        spec_parsed_scores(spec_join_scores(h)) == h,
    decreases h.len(),
{
    let s = spec_join_scores(h);
    if h.len() == 0 {
        assert(spec_first_sep(s, ' ') == 0);
        assert(s.take(0) =~= Seq::<char>::empty());
        assert(spec_parse_u32(Seq::<char>::empty()) is None);
        assert(spec_parsed_scores(s) =~= Seq::<u32>::empty());
        assert(h =~= Seq::<u32>::empty());
    } else if h.len() == 1 {
        lemma_u32_chars_digits(h[0] as int);
        lemma_parse_u32_of_chars(h[0]);
        assert forall|i: int| 0 <= i < s.len() implies s[i] != ' ' by {
            assert(spec_is_digit(s[i]));
        }
        lemma_first_sep_is(s, ' ', s.len() as int);
        assert(s.take(s.len() as int) =~= s);
        assert(spec_parsed_scores(s) == seq![h[0]] + Seq::<u32>::empty());
        assert(seq![h[0]] + Seq::<u32>::empty() =~= h);
    } else {
        let a = spec_u32_chars(h[0] as int);
        let tail = spec_join_scores(h.drop_first());
        assert(s == a + seq![' '] + tail);
        lemma_u32_chars_digits(h[0] as int);
        lemma_parse_u32_of_chars(h[0]);
        lemma_parsed_scores_of_join(h.drop_first());
        let k = a.len() as int;
        assert forall|i: int| 0 <= i < k implies s[i] != ' ' by {
            assert(s[i] == a[i]);
            assert(spec_is_digit(a[i]));
        }
        assert(s[k] == ' ');
        lemma_first_sep_is(s, ' ', k);
        assert(s.take(k) =~= a);
        assert(s.skip(k + 1) =~= tail);
        assert(spec_parsed_scores(s) == seq![h[0]] + h.drop_first());
        assert(seq![h[0]] + h.drop_first() =~= h);
    }
}

/// Law: a saved score file loads back to exactly the lists it was saved
/// from: reading the two-line text of `scores` and `lines` yields both
/// lists unchanged.
pub proof fn lemma_scores_file_round_trip(scores: Seq<u32>, lines: Seq<u32>)
    ensures
        spec_parse_content(spec_scores_file(scores, lines)) == Some((scores, lines)),
{
    let a = spec_join_scores(scores);
    let b = spec_join_scores(lines);
    let s = spec_scores_file(scores, lines);
    assert(s == a + seq!['\n'] + b + seq!['\n']);
    lemma_join_chars(scores);
    lemma_join_chars(lines);
    let k = a.len() as int;
    assert forall|i: int| 0 <= i < k implies s[i] != '\n' by {
        assert(s[i] == a[i]);
        assert(spec_is_digit(a[i]) || a[i] == ' ');
    }
    assert(s[k] == '\n');
    lemma_first_sep_is(s, '\n', k);
    assert(s.take(k) =~= a);
    let rest = s.skip(k + 1);
    assert(rest =~= b + seq!['\n']);
    let k2 = b.len() as int;
    assert forall|i: int| 0 <= i < k2 implies rest[i] != '\n' by {
        assert(rest[i] == b[i]);
        assert(spec_is_digit(b[i]) || b[i] == ' ');
    }
    assert(rest[k2] == '\n');
    lemma_first_sep_is(rest, '\n', k2);
    assert(rest.take(k2) =~= b);
    lemma_parsed_scores_of_join(scores);
    lemma_parsed_scores_of_join(lines);
    assert(spec_parse_content(s) == Some((scores, lines)));
}

/// Reads the token at character positions `[start, end)` as a number.
fn parse_token(line: &str, start: usize, end: usize) -> (r: Option<u32>)
    requires
        start <= end <= line@.len(),
    ensures
        r == spec_parse_u32(line@.subrange(start as int, end as int)),
{
    let ghost tok = line@.subrange(start as int, end as int);
    let mut i: usize = start;
    if i < end && line.get_char(i) == '+' {
        i = i + 1;
        proof {
            assert(tok[0] == '+');
            assert(line@.subrange(i as int, end as int) =~= tok.drop_first());
        }
    } else {
        proof {
            assert(line@.subrange(i as int, end as int) =~= tok);
        }
    }
    let ghost d0 = i as int;
    let ghost digits = line@.subrange(d0, end as int);
    if i == end {
        proof {
            assert(digits.len() == 0);
        }
        return None;
    }
    let mut acc: u64 = 0;
    let mut over = false;
    proof {
        assert(line@.subrange(d0, d0) =~= Seq::<char>::empty());
    }
    while i < end
        invariant
            0 <= d0,
            d0 <= i as int <= end <= line@.len(),
            start as int <= d0,
            tok == line@.subrange(start as int, end as int),
            digits == line@.subrange(d0, end as int),
            digits == (if tok.len() > 0 && tok[0] == '+' {
                tok.drop_first()
            } else {
                tok
            }),
            spec_all_digits(line@.subrange(d0, i as int)),
            !over ==> acc == spec_digits_val(line@.subrange(d0, i as int)) && acc <= u32::MAX
                as u64,
            over ==> spec_digits_val(line@.subrange(d0, i as int)) > u32::MAX,
        decreases end - i,
    {
        let c = line.get_char(i);
        let cv = c as u32;
        let ghost prefix = line@.subrange(d0, i as int);
        let ghost prefix2 = line@.subrange(d0, i as int + 1);
        proof {
            assert(prefix2.drop_last() =~= prefix);
            assert(prefix2.last() == c);
            assert(digits[i as int - d0] == c);
        }
        if cv < 48 || cv > 57 {
            proof {
                assert(!spec_is_digit(c));
                assert(!spec_all_digits(digits)) by {
                    assert(digits[i as int - d0] == c);
                }
            }
            return None;
        }
        let dv = (cv - 48) as u64;
        proof {
            assert(spec_is_digit(c));
            assert(spec_digit_val(c) == dv as int);
            assert(spec_digits_val(prefix2) == spec_digits_val(prefix) * 10 + dv);
        }
        if !over {
            let next = acc * 10 + dv;
            if next > u32::MAX as u64 {
                over = true;
            } else {
                acc = next;
            }
        } else {
            proof {
                assert(spec_digits_val(prefix) * 10 + dv > u32::MAX) by (nonlinear_arith)
                    requires
                        spec_digits_val(prefix) > u32::MAX,
                        dv >= 0,
                ;
            }
        }
        i = i + 1;
    }
    proof {
        assert(line@.subrange(d0, i as int) == digits);
        assert(digits.len() > 0);
    }
    if over {
        None
    } else {
        Some(acc as u32)
    }
}

/// The numbers a stored line holds: the line splits at every single space
/// and each piece that reads as a number is kept, in order; pieces that do
/// not read as one (empty pieces between doubled spaces included) are
/// dropped.
pub fn string_to_slice(line: &str) -> (v: Vec<u32>)
    ensures
        v@ == spec_parsed_scores(line@),
{
    let n = line.unicode_len();
    let mut res: Vec<u32> = Vec::new();
    let mut start: usize = 0;
    proof {
        assert(line@.skip(0) =~= line@);
        assert(Seq::<u32>::empty() + spec_parsed_scores(line@) =~= spec_parsed_scores(line@));
    }
    loop
        invariant_except_break
            spec_parsed_scores(line@) == res@ + spec_parsed_scores(line@.skip(start as int)),
        invariant
            start <= n,
            n == line@.len(),
        ensures
            spec_parsed_scores(line@) == res@,
        decreases n - start,
    {
        let ghost pre = res@;
        let ghost s0 = start as int;
        let ghost suf = line@.skip(start as int);
        let mut end: usize = start;
        while end < n && line.get_char(end) != ' '
            invariant
                start <= end <= n,
                n == line@.len(),
                forall|k: int| start <= k < end ==> line@[k] != ' ',
            decreases n - end,
        {
            end = end + 1;
        }
        proof {
            assert forall|k: int| 0 <= k < end - start implies suf[k] != ' ' by {
                assert(suf[k] == line@[k + start]);
            }
            if (end as int) < n as int {
                assert(suf[end - start] == line@[end as int]);
            }
            lemma_first_sep_is(suf, ' ', end as int - start as int);
            assert(suf.take(end - start) =~= line@.subrange(start as int, end as int));
        }
        let parsed = parse_token(line, start, end);
        match parsed {
            Some(val) => {
                res.push(val);
            },
            None => {},
        }
        if end < n {
            proof {
                assert(suf.skip(end as int - s0 + 1) =~= line@.skip(end as int + 1));
                match parsed {
                    Some(val) => {
                        assert(spec_parsed_scores(suf) == seq![val] + spec_parsed_scores(
                            line@.skip(end as int + 1),
                        ));
                        assert(pre + (seq![val] + spec_parsed_scores(line@.skip(end as int + 1)))
                            =~= res@ + spec_parsed_scores(line@.skip(end as int + 1)));
                    },
                    None => {},
                }
            }
            start = end + 1;
        } else {
            proof {
                assert(spec_first_sep(suf, ' ') == suf.len());
                match parsed {
                    Some(val) => {
                        assert(spec_parsed_scores(suf) == seq![val] + Seq::<u32>::empty());
                        assert(pre + (seq![val] + Seq::<u32>::empty()) =~= res@);
                    },
                    None => {
                        assert(pre + Seq::<u32>::empty() =~= res@);
                    },
                }
            }
            break ;
        }
    }
    res
}

/// The pure half of loading the score file: the content splits into the
/// score line (up to the first newline) and the line-count line (from
/// there to the next newline or the end); a content without a newline
/// yields nothing, as does nothing at all.  Each line is read as a list of
/// numbers; unreadable pieces degrade to empty lists rather than failing.
pub fn parse_highscores_and_lines(content: &str) -> (r: Option<(Vec<u32>, Vec<u32>)>)
    ensures
        r.deep_view() == spec_parse_content(content@),
{
    let n = content.unicode_len();
    let mut cut: usize = 0;
    while cut < n && content.get_char(cut) != '\n'
        invariant
            cut <= n,
            n == content@.len(),
            forall|k: int| 0 <= k < cut ==> content@[k] != '\n',
        decreases n - cut,
    {
        cut = cut + 1;
    }
    proof {
        lemma_first_sep_is(content@, '\n', cut as int);
    }
    if cut < n {
        let mut cut2: usize = cut + 1;
        while cut2 < n && content.get_char(cut2) != '\n'
            invariant
                cut < cut2 <= n,
                n == content@.len(),
                forall|k: int| cut < k < cut2 ==> content@[k] != '\n',
            decreases n - cut2,
        {
            cut2 = cut2 + 1;
        }
        let ghost rest = content@.skip(cut as int + 1);
        proof {
            assert forall|k: int| 0 <= k < cut2 - cut - 1 implies rest[k] != '\n' by {
                assert(rest[k] == content@[k + cut + 1]);
            }
            if (cut2 as int) < n as int {
                assert(rest[cut2 - cut - 1] == content@[cut2 as int]);
            }
            lemma_first_sep_is(rest, '\n', cut2 as int - cut as int - 1);
        }
        let first = content.substring_char(0, cut);
        let second = content.substring_char(cut + 1, cut2);
        proof {
            assert(first@ =~= content@.take(cut as int));
            assert(second@ =~= rest.take(cut2 as int - cut as int - 1));
        }
        let highscores = string_to_slice(first);
        let number_lines = string_to_slice(second);
        let r = Some((highscores, number_lines));
        proof {
            assert(r.deep_view() == spec_parse_content(content@));
        }
        r
    } else {
        None
    }
}

/// Records `value` in the list: while fewer than 5 entries exist it is
/// appended and the list re-sorted ascending; otherwise the first entry,
/// in stored order, that `value` exceeds is overwritten.  Returns whether
/// the list changed (a "new high score").
pub fn update_vec(v: &mut Vec<u32>, value: u32) -> (r: bool)
    ensures
        old(v)@.len() < NUM_HIGHSCORES ==> r && sorted_asc(final(v)@) && final(v)@.len() == old(
            v,
        )@.len() + 1 && final(v)@.to_multiset() == old(v)@.push(value).to_multiset(),
        old(v)@.len() >= NUM_HIGHSCORES && (exists|j: int|
            0 <= j < old(v)@.len() && old(v)@[j] < value) ==> r && exists|j: int|
            0 <= j < old(v)@.len() && old(v)@[j] < value && (forall|k: int|
                0 <= k < j ==> old(v)@[k] >= value) && final(v)@ == old(v)@.update(j, value),
        old(v)@.len() >= NUM_HIGHSCORES && (forall|j: int|
            0 <= j < old(v)@.len() ==> old(v)@[j] >= value) ==> !r && final(v)@ == old(v)@,
{
    if v.len() < NUM_HIGHSCORES {
        v.push(value);
        sort_scores(v);
        true
    } else {
        let mut i: usize = 0;
        while i < v.len()
            invariant
                i <= v@.len(),
                v@ == old(v)@,
                old(v)@.len() >= NUM_HIGHSCORES,
                forall|k: int| 0 <= k < i ==> v@[k] >= value,
            decreases v@.len() - i,
        {
            if value > v[i] {
                v[i] = value;
                proof {
                    assert(v@ == old(v)@.update(i as int, value));
                }
                return true;
            }
            i = i + 1;
        }
        false
    }
}

} // verus!
