//! What the operations on texts do, character by character.
use vstd::prelude::*;

use crate::text;
use crate::text::Class;

verus! {

/// The characters that are taken off the start of a text are of the class, and the first one that
/// stays is not.
pub proof fn starts_are_trimmed(s: Seq<char>, k: Class) -> (n: int)
    ensures
        0 <= n <= s.len(),
        text::trim_start(s, k) == s.skip(n),
        forall|j: int| 0 <= j < n ==> k.has(#[trigger] s[j]),
        n < s.len() ==> !k.has(s[n]),
    decreases s.len(),
{
    if s.len() > 0 && k.has(s[0]) {
        let rest = s.drop_first();
        let m = starts_are_trimmed(rest, k);
        assert(rest.skip(m) =~= s.skip(m + 1));
        assert forall|j: int| 0 <= j < m + 1 implies k.has(#[trigger] s[j]) by {
            if j > 0 {
                assert(s[j] == rest[j - 1]);
            }
        }
        if m < rest.len() {
            assert(rest[m] == s[m + 1]);
        }
        m + 1
    } else {
        assert(s.skip(0) =~= s);
        0
    }
}

/// The characters that are taken off the end of a text are of the class, and the last one that
/// stays is not.
pub proof fn ends_are_trimmed(s: Seq<char>, k: Class) -> (n: int)
    ensures
        0 <= n <= s.len(),
        text::trim_end(s, k) == s.take(n),
        forall|j: int| n <= j < s.len() ==> k.has(#[trigger] s[j]),
        n > 0 ==> !k.has(s[n - 1]),
    decreases s.len(),
{
    if s.len() > 0 && k.has(s.last()) {
        let front = s.drop_last();
        let m = ends_are_trimmed(front, k);
        assert(front.take(m) =~= s.take(m));
        assert forall|j: int| m <= j < s.len() implies k.has(#[trigger] s[j]) by {
            if j < front.len() {
                assert(s[j] == front[j]);
            }
        }
        if m > 0 {
            assert(front[m - 1] == s[m - 1]);
        }
        m
    } else {
        assert(s.take(s.len() as int) =~= s);
        s.len() as int
    }
}

/// White characters, at the start and at the end, are what is trimmed off a text.
pub proof fn white_space_is_trimmed(a: Seq<char>, s: Seq<char>, b: Seq<char>)
    requires
        forall|j: int| 0 <= j < a.len() ==> text::white_space(#[trigger] a[j]),
        forall|j: int| 0 <= j < b.len() ==> text::white_space(#[trigger] b[j]),
        s.len() == 0 || (!text::white_space(s[0]) && !text::white_space(s.last())),
    ensures
        text::trim(a + s + b) == s,
{
    let k = Class::White;
    let all = a + s + b;
    let n = starts_are_trimmed(all, k);
    let t = text::trim_start(all, k);
    let m = ends_are_trimmed(t, k);
    assert forall|j: int| 0 <= j < a.len() implies text::white_space(#[trigger] all[j]) by {
        assert(all[j] == a[j]);
    }
    assert forall|j: int| a.len() + s.len() <= j < all.len() implies text::white_space(
        #[trigger] all[j],
    ) by {
        assert(all[j] == b[j - a.len() - s.len()]);
    }
    if s.len() > 0 {
        let first = a.len() as int;
        let last = a.len() + s.len() - 1;
        assert(all[first] == s[0]);
        assert(all[last] == s.last());
        assert(n == first);
        assert(t[last - n] == all[last]);
        if m < last - n + 1 {
            assert(k.has(t[last - n]));
        }
        if m > last - n + 1 {
            assert(t[m - 1] == all[n + m - 1]);
        }
        assert(t.take(m) =~= s);
    } else {
        if n < all.len() {
            assert(text::white_space(all[n]));
        }
        assert(t.take(m) =~= s);
    }
}

/// A text that is taken off the start of another is taken off as often as it stands there.
pub proof fn whole_starts_are_trimmed(s: Seq<char>, p: Seq<char>)
    requires
        p.len() > 0,
    ensures
        text::trim_start_text(p + s, p) == text::trim_start_text(s, p),
        !text::starts(s, p) ==> text::trim_start_text(s, p) == s,
        text::trim_end_text(s + p, p) == text::trim_end_text(s, p),
        !text::ends(s, p) ==> text::trim_end_text(s, p) == s,
{
    let n = p.len() as int;
    assert((p + s).subrange(0, n) =~= p);
    assert((p + s).skip(n) =~= s);
    let l = s.len() as int;
    assert((s + p).subrange(l, l + n) =~= p);
    assert((s + p).take(l) =~= s);
}

/// A text is cut before the last character of a class, and one without such a character has
/// nothing before it.
pub proof fn texts_are_cut_before_the_last(a: Seq<char>, c: char, b: Seq<char>, k: Class)
    requires
        k.has(c),
        forall|j: int| 0 <= j < b.len() ==> !k.has(#[trigger] b[j]),
    ensures
        text::before_last(a.push(c) + b, k) == Some(a),
        text::before_last(b, k) is None,
    decreases b.len(),
{
    let s = a.push(c) + b;
    if b.len() == 0 {
        assert(s.last() == c);
        assert(s.drop_last() =~= a);
    } else {
        let front = b.drop_last();
        assert(!k.has(b[b.len() - 1]));
        assert forall|j: int| 0 <= j < front.len() implies !k.has(#[trigger] front[j]) by {
            assert(front[j] == b[j]);
        }
        texts_are_cut_before_the_last(a, c, front, k);
        assert(s.last() == b.last());
        assert(s.drop_last() =~= a.push(c) + front);
    }
}

/// A line ends before its line feed and, where there is one, the carriage return before it; what
/// follows the last line feed is a line unless it is empty.
pub proof fn lines_end_at_line_feeds(line: Seq<char>, rest: Seq<char>)
    requires
        forall|j: int| 0 <= j < line.len() ==> #[trigger] line[j] != '\n',
    ensures
        line.len() > 0 && line.last() == '\r' ==> text::lines(line.push('\n') + rest) == seq![
            line.drop_last(),
        ] + text::lines(rest),
        line.len() == 0 || line.last() != '\r' ==> text::lines(line.push('\n') + rest) == seq![line]
            + text::lines(rest),
        line.len() > 0 ==> text::lines(line) == seq![line],
        line.len() == 0 ==> text::lines(line).len() == 0,
{
    let k = Class::Only('\n');
    let s = line.push('\n') + rest;
    let n = line.len() as int;
    assert(s[n] == '\n');
    assert forall|j: int| 0 <= j < n implies !k.has(s[j]) by {
        assert(s[j] == line[j]);
    }
    text::lemma_position_is(s, k, n);
    assert(s.take(n) =~= line);
    assert(s.skip(n + 1) =~= rest);
    text::lemma_position(line, k);
}

/// Replacing a character replaces it wherever it stands and leaves the others.
pub proof fn characters_are_replaced(s: Seq<char>, a: char, b: char, i: int)
    requires
        0 <= i < s.len(),
    ensures
        text::replace(s, a, b).len() == s.len(),
        s[i] == a ==> text::replace(s, a, b)[i] == b,
        s[i] != a ==> text::replace(s, a, b)[i] == s[i],
{
}

// ---------------------------------------------------------------------------
// Numbers
// ---------------------------------------------------------------------------

/// The number that the digits of a text make; what is no digit is passed over.
pub open spec fn number_in(s: Seq<char>) -> int
    decreases s.len(),
{
    if s.len() == 0 {
        0
    } else if '0' <= s.last() <= '9' {
        10 * number_in(s.drop_last()) + (s.last() as int - '0' as int)
    } else {
        number_in(s.drop_last())
    }
}

proof fn lemma_digit(d: int)
    requires
        0 <= d < 10,
    ensures
        '0' <= text::digit(d) <= '9',
        text::digit(d) as int - '0' as int == d,
{
}

proof fn lemma_push_digit(s: Seq<char>, d: int)
    requires
        0 <= d < 10,
    ensures
        number_in(s.push(text::digit(d))) == 10 * number_in(s) + d,
{
    lemma_digit(d);
    assert(s.push(text::digit(d)).drop_last() =~= s);
}

/// The digits of a number make the number, and all characters of it are digits; the first is a
/// zero for zero alone.
pub proof fn decimals_read_as_their_number(n: nat)
    ensures
        number_in(text::decimal(n)) == n,
        text::decimal(n).len() > 0,
        n > 0 ==> text::decimal(n)[0] != '0',
        forall|i: int|
            0 <= i < text::decimal(n).len() ==> '0' <= #[trigger] text::decimal(n)[i] <= '9',
    decreases n,
{
    if n < 10 {
        let none = Seq::<char>::empty();
        lemma_push_digit(none, n as int);
        lemma_digit(n as int);
        assert(text::decimal(n) =~= none.push(text::digit(n as int)));
        assert(number_in(none) == 0);
    } else {
        decimals_read_as_their_number(n / 10);
        lemma_push_digit(text::decimal(n / 10), (n % 10) as int);
        lemma_digit((n % 10) as int);
        let front = text::decimal(n / 10);
        assert(text::decimal(n)[0] == front[0]);
        assert forall|i: int| 0 <= i < text::decimal(n).len() implies '0'
            <= #[trigger] text::decimal(n)[i] <= '9' by {
            if i < front.len() {
                assert(text::decimal(n)[i] == front[i]);
            }
        }
    }
}

/// A number in groups reads as the number, has a comma before each three digits from the end, and
/// has digits in all other places.
pub proof fn groups_read_as_their_number(n: nat)
    ensures
        number_in(text::grouped(n)) == n,
        text::grouped(n).len() > 0,
        text::grouped(n).len() % 4 != 0,
        n > 0 ==> text::grouped(n)[0] != '0',
        forall|i: int|
            0 <= i < text::grouped(n).len() ==> (#[trigger] text::grouped(n)[i] == ',' <==> (
            text::grouped(n).len() - i) % 4 == 0),
        forall|i: int|
            0 <= i < text::grouped(n).len() && (text::grouped(n).len() - i) % 4 != 0 ==> '0'
                <= #[trigger] text::grouped(n)[i] <= '9',
    decreases n,
{
    let all = text::grouped(n);
    if n < 1000 {
        decimals_read_as_their_number(n);
        lemma_short(n);
    } else {
        let front = text::grouped(n / 1000);
        groups_read_as_their_number(n / 1000);
        let r = n % 1000;
        let a = (r / 100 % 10) as int;
        let b = (r / 10 % 10) as int;
        let c = (r % 10) as int;
        assert(100 * a + 10 * b + c == r);
        let comma = front.push(',');
        assert(comma.drop_last() =~= front);
        assert(number_in(comma) == number_in(front));
        lemma_push_digit(comma, a);
        let one = comma.push(text::digit(a));
        lemma_push_digit(one, b);
        let two = one.push(text::digit(b));
        lemma_push_digit(two, c);
        assert(all =~= two.push(text::digit(c)));
        lemma_digit(a);
        lemma_digit(b);
        lemma_digit(c);
        let l = front.len() as int;
        assert(all.len() == l + 4);
        assert(all[0] == front[0]);
        assert forall|i: int| 0 <= i < all.len() implies (#[trigger] all[i] == ',' <==> (all.len()
            - i) % 4 == 0) by {
            if i < l {
                assert(all[i] == front[i]);
            }
        }
        assert forall|i: int| 0 <= i < all.len() && (all.len() - i) % 4 != 0 implies '0'
            <= #[trigger] all[i] <= '9' by {
            if i < l {
                assert(all[i] == front[i]);
            }
        }
    }
}

proof fn lemma_short(n: nat)
    requires
        n < 1000,
    ensures
        1 <= text::decimal(n).len() <= 3,
{
    reveal_with_fuel(text::decimal, 3);
}

} // verus!
