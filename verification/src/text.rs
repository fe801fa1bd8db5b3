//! Character-level helpers: whitespace, splitting, line breaking, decimal
//! numbers, and the few calls into std that build strings.
use vstd::prelude::*;
use vstd::string::StringExecFns;

verus! {

/// The Unicode `White_Space` property, which is what `char::is_whitespace`
/// tests: U+0009..=U+000D, U+0020, U+0085, U+00A0, U+1680, U+2000..=U+200A,
/// U+2028, U+2029, U+202F, U+205F and U+3000.
pub open spec fn is_white_space(c: char) -> bool {
    let u = c as u32;
    ||| 0x09 <= u <= 0x0d
    ||| u == 0x20
    ||| u == 0x85
    ||| u == 0xa0
    ||| u == 0x1680
    ||| 0x2000 <= u <= 0x200a
    ||| u == 0x2028
    ||| u == 0x2029
    ||| u == 0x202f
    ||| u == 0x205f
    ||| u == 0x3000
}

/// Whether `c` is Unicode white space.
pub fn is_whitespace(c: char) -> (r: bool)
    ensures
        r == is_white_space(c),
{
    let u = c as u32;
    (0x09 <= u && u <= 0x0d) || u == 0x20 || u == 0x85 || u == 0xa0 || u == 0x1680 || (0x2000
        <= u && u <= 0x200a) || u == 0x2028 || u == 0x2029 || u == 0x202f || u == 0x205f || u
        == 0x3000
}

/// A line is blank when trimming white space off it leaves nothing.
pub open spec fn is_blank(s: Seq<char>) -> bool {
    forall|i: int| 0 <= i < s.len() ==> is_white_space(#[trigger] s[i])
}

/// Whether every character of `s` is white space (`s.trim().is_empty()`).
pub fn is_blank_str(s: &str) -> (r: bool)
    ensures
        r == is_blank(s@),
{
    let mut all = true;
    for c in it: s.chars()
        invariant
            it.seq() == s@,
            all == (forall|i: int| 0 <= i < it.index() ==> is_white_space(#[trigger] s@[i])),
    {
        if !is_whitespace(c) {
            all = false;
        }
    }
    all
}

/// The pieces of `s` between occurrences of `sep`, as `str::split` yields
/// them: one more piece than there are separators, empty pieces kept.
pub open spec fn split_on(s: Seq<char>, sep: char) -> Seq<Seq<char>>
    decreases s.len(),
{
    if s.len() == 0 {
        seq![Seq::<char>::empty()]
    } else {
        let rest = split_on(s.drop_last(), sep);
        if s.last() == sep {
            rest.push(Seq::<char>::empty())
        } else {
            rest.update(rest.len() - 1, rest.last().push(s.last()))
        }
    }
}

/// `split_on` never yields an empty list of pieces.
pub proof fn lemma_split_on_nonempty(s: Seq<char>, sep: char)
    ensures
        split_on(s, sep).len() >= 1,
    decreases s.len(),
{
    if s.len() > 0 {
        lemma_split_on_nonempty(s.drop_last(), sep);
    }
}

/// There is more than one piece exactly when the separator occurs.
pub proof fn lemma_split_on_len(s: Seq<char>, sep: char)
    ensures
        split_on(s, sep).len() > 1 <==> s.contains(sep),
    decreases s.len(),
{
    if s.len() > 0 {
        lemma_split_on_len(s.drop_last(), sep);
        lemma_split_on_nonempty(s.drop_last(), sep);
        if s.drop_last().contains(sep) {
            let i = choose|i: int| 0 <= i < s.drop_last().len() && s.drop_last()[i] == sep;
            assert(s[i] == sep);
        }
        if s.contains(sep) && s.last() != sep {
            let i = choose|i: int| 0 <= i < s.len() && s[i] == sep;
            assert(s.drop_last()[i] == sep);
        }
        if s.last() == sep {
            assert(s[s.len() - 1] == sep);
        }
    }
}

/// The pieces and the characters of the last piece together are at most one
/// more than the characters of the text.
pub proof fn lemma_split_on_count(s: Seq<char>, sep: char)
    ensures
        split_on(s, sep).len() + split_on(s, sep).last().len() <= s.len() + 1,
    decreases s.len(),
{
    lemma_split_on_nonempty(s, sep);
    if s.len() > 0 {
        lemma_split_on_count(s.drop_last(), sep);
        lemma_split_on_nonempty(s.drop_last(), sep);
    }
}

/// The views of a sequence of strings.
pub open spec fn views(v: Seq<String>) -> Seq<Seq<char>> {
    v.map_values(|s: String| s@)
}

/// Appends `c` to `s` through `String::push`. The contract claims what std
/// documents for it: the string grows by exactly that character at its end.
#[verifier::external_body]
pub fn push_char(s: &mut String, c: char)
    ensures
        final(s)@ == old(s)@.push(c),
{
    s.push(c)
}

/// Splits `s` at every `sep` (`str::split` with a `char` pattern).
pub fn split_str(s: &str, sep: char) -> (parts: Vec<String>)
    ensures
        views(parts@) == split_on(s@, sep),
{
    let mut parts: Vec<String> = Vec::new();
    let mut cur = String::new();
    proof {
        assert(s@.take(0) =~= Seq::<char>::empty());
    }
    for c in it: s.chars()
        invariant
            it.seq() == s@,
            views(parts@).push(cur@) == split_on(s@.take(it.index() as int), sep),
    {
        let ghost i = it.index();
        proof {
            assert(s@.take(i + 1).drop_last() =~= s@.take(i as int));
            assert(s@.take(i + 1).last() == c);
        }
        if c == sep {
            let done = cur;
            parts.push(done);
            cur = String::new();
            proof {
                assert(views(parts@).push(cur@) =~= split_on(s@.take(i + 1), sep));
            }
        } else {
            push_char(&mut cur, c);
            proof {
                assert(views(parts@).push(cur@) =~= split_on(s@.take(i + 1), sep));
            }
        }
    }
    proof {
        assert(s@.take(s@.len() as int) =~= s@);
    }
    parts.push(cur);
    proof {
        assert(views(parts@) =~= split_on(s@, sep));
    }
    parts
}

/// The line with one trailing carriage return removed, if it has one.
pub open spec fn strip_cr(s: Seq<char>) -> Seq<char> {
    if s.len() > 0 && s.last() == '\r' {
        s.drop_last()
    } else {
        s
    }
}

/// The lines of `s`, as `str::lines` yields them: the text is split at each
/// `'\n'`; a line ended by `"\n"` loses one `'\r'` before it; a final empty
/// piece (text that ends with `'\n'`, or the empty text) is not a line.
pub open spec fn lines_of(s: Seq<char>) -> Seq<Seq<char>> {
    let parts = split_on(s, '\n');
    let n = if parts.last().len() == 0 {
        parts.len() - 1
    } else {
        parts.len() as int
    };
    Seq::new(
        n as nat,
        |i: int|
            if i < parts.len() - 1 {
                strip_cr(parts[i])
            } else {
                parts[i]
            },
    )
}

/// The decimal digit for `d`, which is below ten.
pub open spec fn digit_char(d: nat) -> char {
    if d == 0 {
        '0'
    } else if d == 1 {
        '1'
    } else if d == 2 {
        '2'
    } else if d == 3 {
        '3'
    } else if d == 4 {
        '4'
    } else if d == 5 {
        '5'
    } else if d == 6 {
        '6'
    } else if d == 7 {
        '7'
    } else if d == 8 {
        '8'
    } else {
        '9'
    }
}

/// The decimal notation of `n`, without leading zeros.
pub open spec fn decimal(n: nat) -> Seq<char>
    decreases n,
{
    if n < 10 {
        seq![digit_char(n)]
    } else {
        decimal(n / 10).push(digit_char(n % 10))
    }
}

fn digit(d: usize) -> (c: char)
    requires
        d < 10,
    ensures
        c == digit_char(d as nat),
{
    if d == 0 {
        '0'
    } else if d == 1 {
        '1'
    } else if d == 2 {
        '2'
    } else if d == 3 {
        '3'
    } else if d == 4 {
        '4'
    } else if d == 5 {
        '5'
    } else if d == 6 {
        '6'
    } else if d == 7 {
        '7'
    } else if d == 8 {
        '8'
    } else {
        '9'
    }
}

/// Appends the decimal notation of `n` to `out`.
pub fn push_decimal(out: &mut String, n: usize)
    ensures
        final(out)@ == old(out)@ + decimal(n as nat),
    decreases n,
{
    if n >= 10 {
        push_decimal(out, n / 10);
    }
    push_char(out, digit(n % 10));
    proof {
        if n >= 10 {
            assert(final(out)@ =~= old(out)@ + decimal(n as nat));
        } else {
            assert(final(out)@ =~= old(out)@ + decimal(n as nat));
        }
    }
}

/// What `format!("{:?}", s)` gives for a string: `s` in double quotes, with
/// quotes, backslashes, control and unprintable characters escaped.
pub uninterp spec fn debug_quoted(s: Seq<char>) -> Seq<char>;

/// Characters that the `Debug` notation of a string leaves as they are:
/// printable ASCII other than `"` and `\`.
pub open spec fn debug_plain(c: char) -> bool {
    &&& ' ' <= c <= '~'
    &&& c != '"'
    &&& c != '\\'
}

/// `format!("{:?}", s)`: the `Debug` notation of a string. The contract
/// names the result `debug_quoted(s@)`, a function of `s` alone, and states
/// what std's source shows for strings of plain characters: they come back
/// unchanged between two double quotes. Which escape each other character
/// gets is left unsaid.
#[verifier::external_body]
pub fn debug_str(s: &str) -> (r: String)
    ensures
        r@ == debug_quoted(s@),
        (forall|i: int| 0 <= i < s@.len() ==> debug_plain(#[trigger] s@[i])) ==> r@ == seq!['"']
            + s@ + seq!['"'],
{
    format!("{:?}", s)
}

/// Copies `s` into a new `String`.
pub fn to_owned_string(s: &str) -> (r: String)
    ensures
        r@ == s@,
{
    let mut r = String::new();
    r.append(s);
    r
}

/// UTF-8 needs at least one byte per character.
pub proof fn lemma_encode_utf8_len(c: Seq<char>)
    ensures
        vstd::utf8::encode_utf8(c).len() >= c.len(),
    decreases c.len(),
{
    if c.len() > 0 {
        lemma_encode_utf8_len(c.drop_first());
    }
}

/// The number of characters of a string fits in a `usize`: it is at most
/// the number of its bytes.
pub fn char_count_fits(s: &str)
    ensures
        s@.len() <= usize::MAX,
{
    let b = s.as_bytes();
    // A slice's length is a `usize`.
    let _n = b.len();
    proof {
        lemma_encode_utf8_len(s@);
    }
}

/// Whether two strings hold the same characters.
pub fn str_eq(a: &str, b: &str) -> (r: bool)
    ensures
        r == (a@ == b@),
{
    let mut av: Vec<char> = Vec::new();
    for c in it: a.chars()
        invariant
            it.seq() == a@,
            av@ == a@.take(it.index() as int),
    {
        av.push(c);
        proof {
            assert(av@ =~= a@.take(it.index() + 1));
        }
    }
    proof {
        assert(av@ =~= a@);
    }
    char_count_fits(b);
    let mut i: usize = 0;
    let mut same = true;
    proof {
        assert(a@.take(0) =~= b@.take(0));
    }
    for c in it: b.chars()
        invariant
            it.seq() == b@,
            av@ == a@,
            i == it.index(),
            i <= b@.len(),
            b@.len() <= usize::MAX,
            same == (i <= a@.len() && a@.take(i as int) == b@.take(i as int)),
    {
        if same {
            if i < av.len() && av[i] == c {
                proof {
                    assert(a@.take(i + 1) =~= a@.take(i as int).push(c));
                    assert(b@.take(i + 1) =~= b@.take(i as int).push(c));
                }
            } else {
                same = false;
                proof {
                    if i + 1 <= a@.len() && a@.take(i + 1) == b@.take(i + 1) {
                        assert(a@.take(i + 1)[i as int] == b@.take(i + 1)[i as int]);
                    }
                }
            }
        } else {
            proof {
                if i + 1 <= a@.len() && a@.take(i + 1) == b@.take(i + 1) {
                    assert(a@.take(i as int) =~= a@.take(i + 1).take(i as int));
                    assert(b@.take(i as int) =~= b@.take(i + 1).take(i as int));
                }
            }
        }
        i = i + 1;
    }
    proof {
        assert(b@.take(b@.len() as int) =~= b@);
        if same && av@.len() == b@.len() {
            assert(a@.take(i as int) =~= a@);
        }
    }
    same && av.len() == i
}

} // verus!
