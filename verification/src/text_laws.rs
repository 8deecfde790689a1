//! Laws of text: lines and columns, numbers in decimal, the order of names.

use vstd::prelude::*;

use crate::ids::{be_bytes, be_value, hex_of, lemma_be_bytes_len};
use crate::text::{
    before, blank, columns, decimal, digits_value, first_newline, line_sizes, lines, rows,
    unsigned_value, white_space, widest,
};

verus! {

/// A text is read line by line: a line ends before a line feed (and before a
/// carriage return that precedes it), and the last one needs none.
pub proof fn law_lines(head: Seq<char>, rest: Seq<char>)
    requires
        forall|i: int| 0 <= i < head.len() ==> (#[trigger] head[i]) != '\n',
    ensures
        lines(head.push('\n') + rest) == seq![
            if head.len() > 0 && head.last() == '\r' {
                head.drop_last()
            } else {
                head
            },
        ] + lines(rest),
        head.len() > 0 ==> lines(head) == seq![head],
        lines(Seq::empty()).len() == 0,
{
    let s = head.push('\n') + rest;
    lemma_first(head, s);
    lemma_first(head, head);
    let n = head.len() as int;
    assert(s.take(n) =~= head);
    assert(s.skip(n + 1) =~= rest);
}

proof fn lemma_first(head: Seq<char>, s: Seq<char>)
    requires
        forall|i: int| 0 <= i < head.len() ==> (#[trigger] head[i]) != '\n',
        s.len() >= head.len(),
        forall|i: int| 0 <= i < head.len() ==> (#[trigger] s[i]) == head[i],
        s.len() > head.len() ==> s[head.len() as int] == '\n',
    ensures
        first_newline(s) == head.len(),
    decreases head.len(),
{
    if head.len() > 0 {
        assert(s[0] == head[0]);
        let (h, t) = (head.skip(1), s.skip(1));
        assert forall|i: int| 0 <= i < h.len() implies (#[trigger] h[i]) != '\n' by {
            assert(head[i + 1] != '\n');
        }
        assert forall|i: int| 0 <= i < h.len() implies (#[trigger] t[i]) == h[i] by {
            assert(s[i + 1] == head[i + 1]);
        }
        lemma_first(h, t);
    }
}

/// A label fills as many rows as its text has lines, and as many columns as the
/// longest of them has characters, but at least one of each.
pub proof fn law_labels_fill_a_grid(s: Seq<char>)
    requires
        s.len() <= usize::MAX,
    ensures
        rows(s) == (if lines(s).len() > 0 {
            lines(s).len()
        } else {
            1
        }),
        columns(s) >= 1,
        forall|i: int| 0 <= i < lines(s).len() ==> (#[trigger] lines(s)[i]).len() <= columns(s),
        columns(s) == 1 || exists|i: int|
            0 <= i < lines(s).len() && (#[trigger] lines(s)[i]).len() == columns(s),
{
    lemma_lines_fit(s);
    let sizes = line_sizes(s).map_values(|n: nat| n as usize);
    lemma_widest(sizes);
    assert forall|i: int| 0 <= i < lines(s).len() implies (#[trigger] lines(s)[i]).len() <= columns(
        s,
    ) by {
        assert(sizes[i] == lines(s)[i].len());
    }
    if columns(s) != 1 {
        let i = choose|i: int| 0 <= i < sizes.len() && #[trigger] sizes[i] == widest(sizes);
        assert(sizes[i] == lines(s)[i].len());
    }
}

proof fn lemma_lines_fit(s: Seq<char>)
    ensures
        forall|i: int| 0 <= i < lines(s).len() ==> (#[trigger] lines(s)[i]).len() <= s.len(),
    decreases s.len(),
{
    let n = first_newline(s);
    if s.len() > 0 && 0 <= n < s.len() {
        let rest = s.skip(n + 1);
        lemma_lines_fit(rest);
        assert forall|i: int| 0 <= i < lines(s).len() implies (#[trigger] lines(s)[i]).len()
            <= s.len() by {
            if i > 0 {
                assert(lines(s)[i] == lines(rest)[i - 1]);
            }
        }
    }
}

proof fn lemma_widest(sizes: Seq<usize>)
    ensures
        widest(sizes) >= 1,
        forall|i: int| 0 <= i < sizes.len() ==> #[trigger] sizes[i] <= widest(sizes),
        widest(sizes) == 1 || exists|i: int|
            0 <= i < sizes.len() && #[trigger] sizes[i] == widest(sizes),
    decreases sizes.len(),
{
    if sizes.len() > 0 {
        let front = sizes.drop_last();
        lemma_widest(front);
        let last = sizes.len() - 1;
        assert forall|i: int| 0 <= i < sizes.len() implies #[trigger] sizes[i] <= widest(sizes) by {
            if i < last {
                assert(front[i] == sizes[i]);
            }
        }
        if widest(sizes) != 1 {
            if widest(sizes) == widest(front) {
                let i = choose|i: int| 0 <= i < front.len() && #[trigger] front[i] == widest(front);
                assert(sizes[i] == widest(sizes));
            } else {
                assert(sizes[last] == widest(sizes));
            }
        }
    }
}

/// A number is written in decimal, most significant digit first and without
/// leading zeros, and reads back as itself.
pub proof fn law_numbers_are_written_in_decimal(n: nat)
    ensures
        decimal(n).len() > 0,
        decimal(n).last() as int == 48 + n % 10,
        n < 10 ==> decimal(n).len() == 1,
        n >= 10 ==> decimal(n).drop_last() == decimal(n / 10),
        n > 0 ==> decimal(n)[0] != '0',
        forall|i: int| 0 <= i < decimal(n).len() ==> 48 <= (#[trigger] decimal(n)[i]) as int <= 57,
        digits_value(decimal(n)) == Some(n as int),
    decreases n,
{
    let d = decimal(n);
    if n >= 10 {
        law_numbers_are_written_in_decimal(n / 10);
        let front = decimal(n / 10);
        assert(d.drop_last() =~= front);
        assert(d[0] == front[0]);
        assert forall|i: int| 0 <= i < d.len() implies 48 <= (#[trigger] d[i]) as int <= 57 by {
            if i < d.len() - 1 {
                assert(d[i] == front[i]);
            }
        }
    } else {
        assert(d.drop_last() =~= Seq::empty());
        reveal_with_fuel(digits_value, 2);
    }
}

/// Text is read as a number where it is digits, with or without a plus sign, and
/// no more than the limit; zeros before it do not matter, and anything else is
/// no number.
pub proof fn law_numbers_are_read(n: nat, s: Seq<char>, max: int)
    ensures
        unsigned_value(decimal(n), max) == (if n <= max {
            Some(n as int)
        } else {
            None
        }),
        unsigned_value(seq!['+'] + decimal(n), max) == unsigned_value(decimal(n), max),
        unsigned_value(Seq::empty(), max) is None,
        unsigned_value(seq!['+'], max) is None,
        s.len() > 0 && s[0] != '+' && (exists|i: int|
            0 <= i < s.len() && !(48 <= (#[trigger] s[i]) as int <= 57)) ==> unsigned_value(
            s,
            max,
        ) is None,
        s.len() > 0 && s[0] != '+' ==> unsigned_value(seq!['0'] + s, max) == unsigned_value(s, max),
{
    law_numbers_are_written_in_decimal(n);
    let d = decimal(n);
    assert((seq!['+'] + d).skip(1) =~= d);
    assert(seq!['+'].skip(1) =~= Seq::<char>::empty());
    assert(48 <= d[0] as int <= 57);
    if exists|i: int| 0 <= i < s.len() && !(48 <= (#[trigger] s[i]) as int <= 57) {
        let i = choose|i: int| 0 <= i < s.len() && !(48 <= (#[trigger] s[i]) as int <= 57);
        lemma_stray(s, i);
    }
    lemma_leading_zero(s);
}

proof fn lemma_stray(s: Seq<char>, i: int)
    requires
        0 <= i < s.len(),
        !(48 <= s[i] as int <= 57),
    ensures
        digits_value(s) is None,
    decreases s.len(),
{
    if i < s.len() - 1 {
        lemma_stray(s.drop_last(), i);
    }
}

proof fn lemma_leading_zero(s: Seq<char>)
    ensures
        digits_value(seq!['0'] + s) == digits_value(s),
    decreases s.len(),
{
    let t = seq!['0'] + s;
    if s.len() == 0 {
        assert(t.drop_last() =~= Seq::empty());
        reveal_with_fuel(digits_value, 2);
    } else {
        lemma_leading_zero(s.drop_last());
        assert(t.drop_last() =~= seq!['0'] + s.drop_last());
        assert(t.last() == s.last());
    }
}

/// Names are ordered by the first character in which they differ; a name that
/// goes on where the other ends comes later.
pub proof fn law_names_are_ordered(a: Seq<char>, b: Seq<char>)
    ensures
        before(a, b) <==> exists|k: int|
            0 <= k <= a.len() && k < b.len() && #[trigger] a.take(k) == b.take(k) && (k == a.len()
                || a[k] < b[k]),
    decreases a.len(),
{
    if b.len() > 0 && a.len() > 0 && a[0] == b[0] {
        let (x, y) = (a.skip(1), b.skip(1));
        law_names_are_ordered(x, y);
        if before(a, b) {
            let k = choose|k: int|
                0 <= k <= x.len() && k < y.len() && #[trigger] x.take(k) == y.take(k) && (k
                    == x.len() || x[k] < y[k]);
            assert forall|i: int| 0 <= i < k + 1 implies a[i] == b[i] by {
                if i > 0 {
                    assert(x.take(k)[i - 1] == y.take(k)[i - 1]);
                }
            }
            assert(a.take(k + 1) =~= b.take(k + 1));
        }
        if exists|k: int|
            0 <= k <= a.len() && k < b.len() && #[trigger] a.take(k) == b.take(k) && (k == a.len()
                || a[k] < b[k]) {
            let k = choose|k: int|
                0 <= k <= a.len() && k < b.len() && #[trigger] a.take(k) == b.take(k) && (k
                    == a.len() || a[k] < b[k]);
            assert(k > 0);
            assert(x.take(k - 1) =~= y.take(k - 1)) by {
                assert forall|i: int| 0 <= i < k - 1 implies x[i] == y[i] by {
                    assert(a.take(k)[i + 1] == b.take(k)[i + 1]);
                }
            }
        }
    } else if b.len() > 0 {
        assert(a.take(0) =~= b.take(0));
        if exists|k: int|
            0 <= k <= a.len() && k < b.len() && #[trigger] a.take(k) == b.take(k) && (k == a.len()
                || a[k] < b[k]) {
            let k = choose|k: int|
                0 <= k <= a.len() && k < b.len() && #[trigger] a.take(k) == b.take(k) && (k
                    == a.len() || a[k] < b[k]);
            if k > 0 {
                assert(a.take(k)[0] == b.take(k)[0]);
            }
        }
    }
}

/// The bytes of a number are its digits to the base 256, the least significant
/// last.
pub proof fn law_bytes_of_a_number(v: nat, n: nat)
    ensures
        be_bytes(v, n).len() == n,
        n > 0 ==> be_bytes(v, n).last() == v % 256,
        n > 0 ==> be_bytes(v, n).drop_last() == be_bytes(v / 256, (n - 1) as nat),
        be_value(be_bytes(v, n)) <= v,
    decreases n,
{
    lemma_be_bytes_len(v, n);
    if n > 0 {
        law_bytes_of_a_number(v / 256, (n - 1) as nat);
        assert(be_bytes(v, n).drop_last() =~= be_bytes(v / 256, (n - 1) as nat));
    }
}

/// Every byte is written as two hexadecimal digits, the greater one first.
pub proof fn law_bytes_are_written_in_hex(bytes: Seq<u8>, i: int)
    requires
        0 <= i < bytes.len(),
    ensures
        hex_of(bytes).len() == 2 * bytes.len(),
        ({
            let (h, l) = (bytes[i] as int / 16, bytes[i] as int % 16);
            &&& hex_of(bytes)[2 * i] as int == (if h < 10 {
                48 + h
            } else {
                87 + h
            })
            &&& hex_of(bytes)[2 * i + 1] as int == (if l < 10 {
                48 + l
            } else {
                87 + l
            })
        }),
{
}

/// A text is blank where each part of it is; a text of one character where the
/// character is white space; an empty one always.
pub proof fn law_blank_texts(a: Seq<char>, b: Seq<char>, c: char)
    ensures
        blank(a + b) <==> blank(a) && blank(b),
        blank(seq![c]) <==> white_space(c),
        blank(Seq::empty()),
{
    let all = a + b;
    if blank(all) {
        assert forall|i: int| 0 <= i < a.len() implies white_space(#[trigger] a[i]) by {
            assert(white_space(all[i]));
        }
        assert forall|i: int| 0 <= i < b.len() implies white_space(#[trigger] b[i]) by {
            assert(white_space(all[a.len() + i]));
        }
    }
    if blank(seq![c]) {
        assert(white_space(seq![c][0]));
    }
}

} // verus!
