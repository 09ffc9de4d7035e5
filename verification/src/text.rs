//! Text as sequences of characters: splitting, searching, and decimal numbers.

use vstd::arithmetic::div_mod::lemma_div_denominator;
use vstd::arithmetic::power::lemma_pow0;
use vstd::arithmetic::power::lemma_pow1;
use vstd::arithmetic::power::lemma_pow_adds;
use vstd::arithmetic::power::lemma_pow_positive;
use vstd::arithmetic::power::pow;
use vstd::prelude::*;
use vstd::string::StringExecFns;
use vstd::utf8::char_u32_cast;

verus! {

// ---------------------------------------------------------------------------
// Characters of a string
// ---------------------------------------------------------------------------

/// The characters of `s`, in order.
pub fn chars_of(s: &str) -> (r: Vec<char>)
    ensures
        r@ == s@,
{
    let mut out: Vec<char> = Vec::new();
    for c in it: s.chars()
        invariant
            it.seq() == s@,
            out@ == s@.take(it.index()),
    {
        out.push(c);
        assert(s@.take(it.index() + 1) == s@.take(it.index()).push(s@[it.index()]));
    }
    assert(s@.take(s@.len() as int) == s@);
    out
}

// ---------------------------------------------------------------------------
// Searching
// ---------------------------------------------------------------------------

/// `needle` stands in `hay` at position `at`.
pub open spec fn occurs_at(hay: Seq<char>, needle: Seq<char>, at: int) -> bool {
    &&& 0 <= at
    &&& at + needle.len() <= hay.len()
    &&& hay.subrange(at, at + needle.len()) == needle
}

/// `hay` begins with `needle`.
pub open spec fn has_prefix(hay: Seq<char>, needle: Seq<char>) -> bool {
    occurs_at(hay, needle, 0)
}

/// `needle` stands somewhere in `hay`.
pub open spec fn has_substring(hay: Seq<char>, needle: Seq<char>) -> bool {
    exists|at: int| occurs_at(hay, needle, at)
}

fn stands_at(hay: &Vec<char>, needle: &Vec<char>, at: usize) -> (r: bool)
    requires
        at <= hay.len(),
    ensures
        r == occurs_at(hay@, needle@, at as int),
{
    if hay.len() - at < needle.len() {
        return false;
    }
    let mut i: usize = 0;
    while i < needle.len()
        invariant
            at + needle.len() <= hay.len(),
            i <= needle.len(),
            forall|j: int| 0 <= j < i ==> hay@[at + j] == needle@[j],
        decreases needle.len() - i,
    {
        if hay[at + i] != needle[i] {
            assert(hay@.subrange(at as int, at + needle.len())[i as int] != needle@[i as int]);
            return false;
        }
        i += 1;
    }
    assert(hay@.subrange(at as int, at + needle.len()) =~= needle@);
    true
}

/// Whether `hay` begins with `needle`.
pub fn starts_with(hay: &Vec<char>, needle: &Vec<char>) -> (r: bool)
    ensures
        r == has_prefix(hay@, needle@),
{
    stands_at(hay, needle, 0)
}

/// Whether `needle` stands somewhere in `hay`.
pub fn contains(hay: &Vec<char>, needle: &Vec<char>) -> (r: bool)
    ensures
        r == has_substring(hay@, needle@),
{
    let mut at: usize = 0;
    while at < hay.len()
        invariant
            at <= hay.len(),
            forall|j: int| 0 <= j < at ==> !occurs_at(hay@, needle@, j),
        decreases hay.len() - at,
    {
        if stands_at(hay, needle, at) {
            return true;
        }
        at += 1;
    }
    stands_at(hay, needle, at)
}

// ---------------------------------------------------------------------------
// Splitting at a separator
// ---------------------------------------------------------------------------

/// The pieces of `s` between the occurrences of `sep`; there is always one
/// more piece than there are separators.
pub open spec fn split(s: Seq<char>, sep: char) -> Seq<Seq<char>>
    decreases s.len(),
{
    if s.len() == 0 {
        seq![Seq::empty()]
    } else {
        let before = split(s.drop_last(), sep);
        if s.last() == sep {
            before.push(Seq::empty())
        } else {
            before.drop_last().push(before.last().push(s.last()))
        }
    }
}

/// `pieces` put together, with `sep` between neighbours.
pub open spec fn join(pieces: Seq<Seq<char>>, sep: Seq<char>) -> Seq<char>
    decreases pieces.len(),
{
    if pieces.len() == 0 {
        Seq::empty()
    } else if pieces.len() == 1 {
        pieces[0]
    } else {
        join(pieces.drop_last(), sep) + sep + pieces.last()
    }
}

/// The contents of a list of character lists.
pub open spec fn pieces_of(v: Seq<Vec<char>>) -> Seq<Seq<char>> {
    Seq::new(v.len(), |i: int| v[i]@)
}

pub proof fn lemma_split_nonempty(s: Seq<char>, sep: char)
    ensures
        split(s, sep).len() >= 1,
    decreases s.len(),
{
    if s.len() > 0 {
        lemma_split_nonempty(s.drop_last(), sep);
    }
}

/// The pieces of `s` between the occurrences of `sep`.
pub fn split_at_each(s: &Vec<char>, sep: char) -> (r: Vec<Vec<char>>)
    ensures
        pieces_of(r@) == split(s@, sep),
{
    let mut done: Vec<Vec<char>> = Vec::new();
    let mut piece: Vec<char> = Vec::new();
    let mut i: usize = 0;
    assert(s@.take(0) =~= Seq::empty());
    assert(pieces_of(done@).push(piece@) =~= split(s@.take(0), sep));
    while i < s.len()
        invariant
            i <= s.len(),
            pieces_of(done@).push(piece@) == split(s@.take(i as int), sep),
        decreases s.len() - i,
    {
        let c = s[i];
        proof {
            assert(s@.take(i + 1).drop_last() =~= s@.take(i as int));
            assert(s@.take(i + 1).last() == c);
        }
        let ghost before = pieces_of(done@).push(piece@);
        assert(before.drop_last() =~= pieces_of(done@));
        if c == sep {
            let ghost old_done = done@;
            let ghost old_piece = piece@;
            done.push(piece);
            piece = Vec::new();
            assert(pieces_of(done@) =~= pieces_of(old_done).push(old_piece));
            assert(piece@ =~= Seq::empty());
        } else {
            piece.push(c);
        }
        i += 1;
    }
    assert(s@.take(s@.len() as int) =~= s@);
    let ghost old_done = done@;
    let ghost last = piece@;
    done.push(piece);
    assert(pieces_of(done@) =~= pieces_of(old_done).push(last));
    done
}

/// Joining the pieces of a text gives the text back.
pub proof fn law_join_split(s: Seq<char>, sep: char)
    ensures
        join(split(s, sep), seq![sep]) == s,
    decreases s.len(),
{
    if s.len() > 0 {
        let before = split(s.drop_last(), sep);
        let now = split(s, sep);
        law_join_split(s.drop_last(), sep);
        lemma_split_nonempty(s.drop_last(), sep);
        assert(s.drop_last().push(s.last()) =~= s);
        if s.last() == sep {
            assert(now.drop_last() =~= before);
            assert(join(now, seq![sep]) =~= s);
        } else {
            assert(now.drop_last() =~= before.drop_last());
            assert(join(now, seq![sep]) =~= s);
        }
    }
}

/// No piece of a text holds the separator.
pub proof fn law_pieces_hold_no_separator(s: Seq<char>, sep: char)
    ensures
        forall|i: int| 0 <= i < split(s, sep).len() ==> !(#[trigger] split(s, sep)[i]).contains(sep),
    decreases s.len(),
{
    if s.len() > 0 {
        let before = split(s.drop_last(), sep);
        law_pieces_hold_no_separator(s.drop_last(), sep);
        lemma_split_nonempty(s.drop_last(), sep);
        assert forall|i: int| 0 <= i < split(s, sep).len() implies !(#[trigger] split(
            s,
            sep,
        )[i]).contains(sep) by {
            if s.last() == sep {
                if i < before.len() {
                    assert(split(s, sep)[i] == before[i]);
                }
            } else if i < before.len() - 1 {
                assert(split(s, sep)[i] == before[i]);
            } else {
                assert(!before[before.len() - 1].contains(sep));
                let grown = before.last().push(s.last());
                if grown.contains(sep) {
                    let k = choose|k: int| 0 <= k < grown.len() && grown[k] == sep;
                    assert(before.last()[k] == sep);
                }
            }
        }
    }
}

/// A text without the separator is its own only piece.
pub proof fn lemma_split_single(s: Seq<char>, sep: char)
    requires
        !s.contains(sep),
    ensures
        split(s, sep) == seq![s],
    decreases s.len(),
{
    if s.len() == 0 {
        assert(s =~= Seq::empty());
    } else {
        assert(s[s.len() - 1] == s.last());
        assert forall|k: int| 0 <= k < s.drop_last().len() implies s.drop_last()[k] != sep by {
            assert(s[k] == s.drop_last()[k]);
        }
        lemma_split_single(s.drop_last(), sep);
        assert(split(s, sep) =~= seq![s.drop_last().push(s.last())]);
        assert(s.drop_last().push(s.last()) =~= s);
    }
}

/// Two texts with a separator between them split into the pieces of the one
/// and then those of the other.
pub proof fn lemma_split_concat(a: Seq<char>, sep: char, b: Seq<char>)
    ensures
        split(a.push(sep) + b, sep) == split(a, sep) + split(b, sep),
    decreases b.len(),
{
    let whole = a.push(sep) + b;
    if b.len() == 0 {
        assert(whole =~= a.push(sep));
        assert(whole.drop_last() =~= a);
        assert(split(whole, sep) =~= split(a, sep) + split(b, sep));
    } else {
        let b0 = b.drop_last();
        lemma_split_concat(a, sep, b0);
        lemma_split_nonempty(b0, sep);
        assert(whole.drop_last() =~= a.push(sep) + b0);
        assert(whole.last() == b.last());
        assert(split(whole, sep) =~= split(a, sep) + split(b, sep));
    }
}

// ---------------------------------------------------------------------------
// Splitting at white space
// ---------------------------------------------------------------------------

/// The characters with the Unicode property `White_Space`.
pub open spec fn white_space(c: char) -> bool {
    let n = c as u32;
    ||| 0x9 <= n <= 0xd
    ||| n == 0x20
    ||| n == 0x85
    ||| n == 0xa0
    ||| n == 0x1680
    ||| 0x2000 <= n <= 0x200a
    ||| n == 0x2028
    ||| n == 0x2029
    ||| n == 0x202f
    ||| n == 0x205f
    ||| n == 0x3000
}

/// Whether `c` is white space.
pub fn is_white_space(c: char) -> (r: bool)
    ensures
        r == white_space(c),
{
    let n: u32 = c as u32;
    (0x9 <= n && n <= 0xd) || n == 0x20 || n == 0x85 || n == 0xa0 || n == 0x1680 || (0x2000 <= n
        && n <= 0x200a) || n == 0x2028 || n == 0x2029 || n == 0x202f || n == 0x205f || n == 0x3000
}

/// The words of `s`: its longest runs of characters that are not white space.
pub open spec fn words(s: Seq<char>) -> Seq<Seq<char>>
    decreases s.len(),
{
    if s.len() == 0 {
        Seq::empty()
    } else {
        let before = words(s.drop_last());
        if white_space(s.last()) {
            before
        } else if s.len() >= 2 && !white_space(s[s.len() - 2]) {
            before.drop_last().push(before.last().push(s.last()))
        } else {
            before.push(seq![s.last()])
        }
    }
}

/// A text that ends in a character other than white space has a last word.
pub proof fn lemma_words_nonempty(s: Seq<char>)
    requires
        s.len() > 0,
        !white_space(s.last()),
    ensures
        words(s).len() >= 1,
{
}

/// The words of `s`.
pub fn split_white_space(s: &Vec<char>) -> (r: Vec<Vec<char>>)
    ensures
        pieces_of(r@) == words(s@),
{
    let mut done: Vec<Vec<char>> = Vec::new();
    let mut word: Vec<char> = Vec::new();
    let mut in_word: bool = false;
    let mut i: usize = 0;
    assert(s@.take(0) =~= Seq::empty());
    assert(pieces_of(done@) =~= words(s@.take(0)));
    while i < s.len()
        invariant
            i <= s.len(),
            in_word == (i > 0 && !white_space(s@[i - 1])),
            in_word ==> pieces_of(done@).push(word@) == words(s@.take(i as int)),
            !in_word ==> pieces_of(done@) == words(s@.take(i as int)) && word@.len() == 0,
        decreases s.len() - i,
    {
        let c = s[i];
        proof {
            assert(s@.take(i + 1).drop_last() =~= s@.take(i as int));
            assert(s@.take(i + 1).last() == c);
            if i > 0 {
                assert(s@.take(i + 1)[i - 1] == s@[i - 1]);
            }
        }
        let ghost old_done = done@;
        let ghost old_word = word@;
        assert(pieces_of(old_done).push(old_word).drop_last() =~= pieces_of(old_done));
        if is_white_space(c) {
            if in_word {
                done.push(word);
                word = Vec::new();
                assert(pieces_of(done@) =~= pieces_of(old_done).push(old_word));
            }
            in_word = false;
        } else {
            word.push(c);
            assert(!in_word ==> word@ =~= seq![c]);
            in_word = true;
        }
        i += 1;
    }
    assert(s@.take(s@.len() as int) =~= s@);
    if in_word {
        let ghost old_done = done@;
        let ghost last = word@;
        done.push(word);
        assert(pieces_of(done@) =~= pieces_of(old_done).push(last));
    }
    done
}

/// Every word has a character, and none of its characters is white space.
pub proof fn law_words_are_black(s: Seq<char>)
    ensures
        forall|i: int|
            0 <= i < words(s).len() ==> (#[trigger] words(s)[i]).len() > 0 && forall|k: int|
                0 <= k < words(s)[i].len() ==> !white_space(#[trigger] words(s)[i][k]),
    decreases s.len(),
{
    if s.len() > 0 {
        let before = words(s.drop_last());
        law_words_are_black(s.drop_last());
        if !white_space(s.last()) && s.len() >= 2 && !white_space(s[s.len() - 2]) {
            lemma_words_nonempty(s.drop_last());
            assert forall|i: int| 0 <= i < words(s).len() implies (#[trigger] words(s)[i]).len() > 0
                && forall|k: int|
                0 <= k < words(s)[i].len() ==> !white_space(#[trigger] words(s)[i][k]) by {
                if i < before.len() - 1 {
                    assert(words(s)[i] == before[i]);
                } else {
                    let grown = before.last().push(s.last());
                    assert(words(s)[i] == grown);
                    assert(before[before.len() - 1] == before.last());
                    assert forall|k: int| 0 <= k < grown.len() implies !white_space(
                        #[trigger] grown[k],
                    ) by {
                        if k < before.last().len() {
                            assert(grown[k] == before.last()[k]);
                        }
                    }
                }
            }
        } else if !white_space(s.last()) {
            assert forall|i: int| 0 <= i < words(s).len() implies (#[trigger] words(s)[i]).len() > 0
                && forall|k: int|
                0 <= k < words(s)[i].len() ==> !white_space(#[trigger] words(s)[i][k]) by {
                if i < before.len() {
                    assert(words(s)[i] == before[i]);
                }
            }
        }
    }
}

/// The words of a text, put together, are the text without its white space.
pub proof fn law_words_lose_only_white_space(s: Seq<char>)
    ensures
        join(words(s), Seq::empty()) == s.filter(|c: char| !white_space(c)),
    decreases s.len(),
{
    reveal(Seq::filter);
    let black = |c: char| !white_space(c);
    if s.len() > 0 {
        let before = words(s.drop_last());
        let now = words(s);
        law_words_lose_only_white_space(s.drop_last());
        if !white_space(s.last()) {
            if s.len() >= 2 && !white_space(s[s.len() - 2]) {
                lemma_words_nonempty(s.drop_last());
                assert(now.drop_last() =~= before.drop_last());
                assert(join(now, Seq::empty()) =~= join(before, Seq::empty()).push(s.last()));
            } else {
                assert(now.drop_last() =~= before);
                assert(join(now, Seq::empty()) =~= join(before, Seq::empty()).push(s.last()));
            }
        }
    }
}

/// A run of characters other than white space is one word.
pub proof fn lemma_words_single(s: Seq<char>)
    requires
        s.len() > 0,
        forall|k: int| 0 <= k < s.len() ==> !white_space(#[trigger] s[k]),
    ensures
        words(s) == seq![s],
    decreases s.len(),
{
    if s.len() == 1 {
        assert(words(s.drop_last()) =~= Seq::empty());
        assert(s =~= seq![s.last()]);
        assert(words(s) =~= seq![s]);
    } else {
        assert forall|k: int| 0 <= k < s.drop_last().len() implies !white_space(
            #[trigger] s.drop_last()[k],
        ) by {
            assert(s.drop_last()[k] == s[k]);
        }
        lemma_words_single(s.drop_last());
        assert(s.drop_last().push(s.last()) =~= s);
        assert(words(s) =~= seq![s]);
    }
}

/// Two texts with white space between them have the words of the one and then
/// those of the other.
pub proof fn lemma_words_concat(a: Seq<char>, c: char, b: Seq<char>)
    requires
        white_space(c),
    ensures
        words(a.push(c) + b) == words(a) + words(b),
    decreases b.len(),
{
    let whole = a.push(c) + b;
    if b.len() == 0 {
        assert(whole =~= a.push(c));
        assert(whole.drop_last() =~= a);
        assert(words(whole) =~= words(a) + words(b));
    } else {
        let b0 = b.drop_last();
        lemma_words_concat(a, c, b0);
        assert(whole.drop_last() =~= a.push(c) + b0);
        assert(whole.last() == b.last());
        if b.len() >= 2 {
            assert(whole[whole.len() - 2] == b[b.len() - 2]);
            if !white_space(b[b.len() - 2]) {
                lemma_words_nonempty(b0);
            }
        } else {
            assert(whole[whole.len() - 2] == c);
        }
        assert(words(whole) =~= words(a) + words(b));
    }
}

// ---------------------------------------------------------------------------
// Decimal numbers
// ---------------------------------------------------------------------------

/// The character of the digit `d`.
pub open spec fn digit(d: nat) -> char {
    (48 + d) as char
}

/// `c` is one of the ten digits.
pub open spec fn is_digit(c: char) -> bool {
    48 <= c as u32 <= 57
}

/// `n` in decimal, without leading zeros.
pub open spec fn decimal(n: nat) -> Seq<char>
    decreases n,
{
    if n < 10 {
        seq![digit(n)]
    } else {
        decimal(n / 10).push(digit(n % 10))
    }
}

/// The number that a row of digits stands for.
pub open spec fn digits_value(s: Seq<char>) -> nat
    decreases s.len(),
{
    if s.len() == 0 {
        0
    } else {
        digits_value(s.drop_last()) * 10 + (s.last() as u32 - 48) as nat
    }
}

/// `s` without a leading plus sign.
pub open spec fn unsigned_part(s: Seq<char>) -> Seq<char> {
    if s.len() > 0 && s[0] == '+' {
        s.skip(1)
    } else {
        s
    }
}

/// `s` is an optional plus sign and then at least one digit and nothing else.
pub open spec fn is_numeral(s: Seq<char>) -> bool {
    &&& unsigned_part(s).len() > 0
    &&& forall|k: int| 0 <= k < unsigned_part(s).len() ==> is_digit(#[trigger] unsigned_part(s)[k])
}

/// The 32-bit number that `s` spells, if it spells one.
pub open spec fn numeral(s: Seq<char>) -> Option<u32> {
    if is_numeral(s) && digits_value(unsigned_part(s)) <= u32::MAX {
        Some(digits_value(unsigned_part(s)) as u32)
    } else {
        None
    }
}

proof fn lemma_digits_value_grows(s: Seq<char>, k: int)
    requires
        0 <= k <= s.len(),
    ensures
        digits_value(s.take(k)) <= digits_value(s),
    decreases s.len() - k,
{
    if k == s.len() {
        assert(s.take(k) =~= s);
    } else {
        lemma_digits_value_grows(s, k + 1);
        assert(s.take(k + 1).drop_last() =~= s.take(k));
    }
}

/// Reads a 32-bit number: an optional plus sign and then digits.
pub fn parse_u32(s: &Vec<char>) -> (r: Option<u32>)
    ensures
        r == numeral(s@),
{
    let start: usize = if s.len() > 0 && s[0] == '+' { 1 } else { 0 };
    let ghost body = unsigned_part(s@);
    assert(body =~= s@.skip(start as int));
    if start == s.len() {
        return None;
    }
    let mut value: u32 = 0;
    let mut i: usize = start;
    assert(body.take(0) =~= Seq::empty());
    while i < s.len()
        invariant
            start <= i <= s.len(),
            body == s@.skip(start as int),
            body == unsigned_part(s@),
            body.len() > 0,
            forall|k: int| 0 <= k < i - start ==> is_digit(#[trigger] body[k]),
            value == digits_value(body.take(i - start)),
        decreases s.len() - i,
    {
        let c: u32 = s[i] as u32;
        assert(body[i - start] == s@[i as int]);
        if c < 48 || c > 57 {
            return None;
        }
        let wide: u64 = value as u64 * 10 + (c - 48) as u64;
        proof {
            assert(body.take(i - start + 1).drop_last() =~= body.take(i - start));
            assert(body.take(i - start + 1).last() == body[i - start]);
            lemma_digits_value_grows(body, i - start + 1);
        }
        if wide > 0xffff_ffff {
            return None;
        }
        value = wide as u32;
        i += 1;
    }
    assert(body.take(s.len() - start) =~= body);
    Some(value)
}

fn digit_text(d: u32) -> (r: &'static str)
    requires
        d < 10,
    ensures
        r@ == seq![digit(d as nat)],
{
    proof {
        reveal_strlit("0");
        reveal_strlit("1");
        reveal_strlit("2");
        reveal_strlit("3");
        reveal_strlit("4");
        reveal_strlit("5");
        reveal_strlit("6");
        reveal_strlit("7");
        reveal_strlit("8");
        reveal_strlit("9");
    }
    let r = match d {
        0 => "0",
        1 => "1",
        2 => "2",
        3 => "3",
        4 => "4",
        5 => "5",
        6 => "6",
        7 => "7",
        8 => "8",
        _ => "9",
    };
    assert(r@ =~= seq![digit(d as nat)]);
    r
}

/// Appends `n` in decimal to `out`.
pub fn push_decimal(out: &mut String, n: u32)
    ensures
        final(out)@ == old(out)@ + decimal(n as nat),
    decreases n,
{
    if n >= 10 {
        push_decimal(out, n / 10);
    }
    out.append(digit_text(n % 10));
    assert(out@ =~= old(out)@ + decimal(n as nat));
}

proof fn lemma_decimal_digits(n: nat)
    ensures
        decimal(n).len() > 0,
        forall|k: int| 0 <= k < decimal(n).len() ==> is_digit(#[trigger] decimal(n)[k]),
        digits_value(decimal(n)) == n,
    decreases n,
{
    if n < 10 {
        assert(seq![digit(n)].drop_last() =~= Seq::empty());
        assert(digits_value(Seq::empty()) == 0);
    } else {
        lemma_decimal_digits(n / 10);
        assert(decimal(n).drop_last() =~= decimal(n / 10));
        assert(decimal(n).last() == digit(n % 10));
    }
}

/// Reading a number back from its decimal text gives the number.
pub proof fn law_numeral_of_decimal(n: u32)
    ensures
        numeral(decimal(n as nat)) == Some(n),
{
    lemma_decimal_digits(n as nat);
    let d = decimal(n as nat);
    assert(is_digit(d[0]));
    assert(unsigned_part(d) == d);
}

/// A decimal text holds digits only.
pub proof fn law_decimal_holds_digits(n: nat)
    ensures
        decimal(n).len() > 0,
        forall|k: int| 0 <= k < decimal(n).len() ==> is_digit(#[trigger] decimal(n)[k]),
{
    lemma_decimal_digits(n);
}

// ---------------------------------------------------------------------------
// Lists of strings
// ---------------------------------------------------------------------------

/// The texts of a list of strings.
pub open spec fn texts_of(v: Seq<String>) -> Seq<Seq<char>> {
    Seq::new(v.len(), |i: int| v[i]@)
}

/// Appends a copy of `s` to the list `out`.
pub fn push_text(out: &mut Vec<String>, s: &str)
    ensures
        texts_of(final(out)@) == texts_of(old(out)@).push(s@),
{
    out.push(s.to_owned());
    assert(texts_of(out@) =~= texts_of(old(out)@).push(s@));
}

// ---------------------------------------------------------------------------
// Laws
// ---------------------------------------------------------------------------

/// A text begins with another if and only if it is that one and something
/// more.
pub proof fn law_prefix(hay: Seq<char>, needle: Seq<char>)
    ensures
        has_prefix(hay, needle) <==> exists|rest: Seq<char>| hay == #[trigger] (needle + rest),
{
    if has_prefix(hay, needle) {
        assert(hay =~= needle + hay.skip(needle.len() as int));
    }
    if exists|rest: Seq<char>| hay == #[trigger] (needle + rest) {
        let rest = choose|rest: Seq<char>| hay == #[trigger] (needle + rest);
        assert(hay.subrange(0, needle.len() as int) =~= needle);
    }
}

/// A text stands in another if and only if the other is something, then the
/// text, and then something.
pub proof fn law_substring(hay: Seq<char>, needle: Seq<char>)
    ensures
        has_substring(hay, needle) <==> exists|before: Seq<char>, after: Seq<char>|
            hay == #[trigger] (before + needle + after),
{
    if has_substring(hay, needle) {
        let at = choose|at: int| occurs_at(hay, needle, at);
        assert(hay =~= hay.take(at) + needle + hay.skip(at + needle.len()));
    }
    if exists|before: Seq<char>, after: Seq<char>| hay == #[trigger] (before + needle + after) {
        let (before, after) = choose|before: Seq<char>, after: Seq<char>|
            hay == #[trigger] (before + needle + after);
        let at = before.len() as int;
        assert(hay.subrange(at, at + needle.len()) =~= needle);
        assert(occurs_at(hay, needle, at));
    }
}

/// Nothing joins to nothing, one piece to itself, and two lists to what each
/// joins to with the separator between.
pub proof fn law_join_concat(
    a: Seq<Seq<char>>,
    b: Seq<Seq<char>>,
    piece: Seq<char>,
    sep: Seq<char>,
)
    ensures
        join(Seq::empty(), sep) == Seq::<char>::empty(),
        join(seq![piece], sep) == piece,
        a.len() > 0 && b.len() > 0 ==> join(a + b, sep) == join(a, sep) + sep + join(b, sep),
    decreases b.len(),
{
    if a.len() > 0 && b.len() > 0 {
        let b0 = b.drop_last();
        assert((a + b).drop_last() =~= a + b0);
        assert((a + b).last() == b.last());
        if b0.len() == 0 {
            assert(a + b0 =~= a);
            assert(join(b, sep) == b[0]);
        } else {
            law_join_concat(a, b0, piece, sep);
        }
        assert(join(a + b, sep) =~= join(a, sep) + sep + join(b, sep));
    }
}

/// Pieces without the separator come back when what they join to is split.
pub proof fn law_split_join(pieces: Seq<Seq<char>>, sep: char)
    requires
        pieces.len() > 0,
        forall|i: int| 0 <= i < pieces.len() ==> !(#[trigger] pieces[i]).contains(sep),
    ensures
        split(join(pieces, seq![sep]), sep) == pieces,
    decreases pieces.len(),
{
    let last = pieces[pieces.len() - 1];
    lemma_split_single(last, sep);
    if pieces.len() == 1 {
        assert(pieces =~= seq![last]);
    } else {
        let before = pieces.drop_last();
        assert forall|i: int| 0 <= i < before.len() implies !(#[trigger] before[i]).contains(
            sep,
        ) by {
            assert(before[i] == pieces[i]);
        }
        law_split_join(before, sep);
        lemma_split_concat(join(before, seq![sep]), sep, last);
        assert(join(pieces, seq![sep]) =~= join(before, seq![sep]).push(sep) + last);
        assert(before + seq![last] =~= pieces);
    }
}

/// White space alone has no words.
pub proof fn law_white_space_has_no_words(s: Seq<char>)
    requires
        forall|k: int| 0 <= k < s.len() ==> white_space(#[trigger] s[k]),
    ensures
        words(s) == Seq::<Seq<char>>::empty(),
    decreases s.len(),
{
    if s.len() > 0 {
        assert(white_space(s[s.len() - 1]));
        assert forall|k: int| 0 <= k < s.drop_last().len() implies white_space(
            #[trigger] s.drop_last()[k],
        ) by {
            assert(s.drop_last()[k] == s[k]);
        }
        law_white_space_has_no_words(s.drop_last());
    }
}

/// Each digit of a decimal text is the one that its place in the number has,
/// counted by powers of ten from the end. The text has as many digits as the
/// number needs.
pub proof fn law_decimal_places(n: nat)
    ensures
        decimal(n).len() > 0,
        n < pow(10, decimal(n).len()),
        decimal(n).len() > 1 ==> n >= pow(10, (decimal(n).len() - 1) as nat),
        forall|k: int|
            0 <= k < decimal(n).len() ==> (#[trigger] decimal(n)[k]) as u32 == 48 + (n as int / pow(
                10,
                (decimal(n).len() - 1 - k) as nat,
            )) % 10,
    decreases n,
{
    lemma_pow0(10);
    lemma_pow1(10);
    let d = decimal(n);
    if n >= 10 {
        let m = n / 10;
        let e = decimal(m);
        law_decimal_places(m);
        assert(d.len() == e.len() + 1);
        lemma_pow_adds(10, 1, e.len());
        lemma_pow_adds(10, 1, (e.len() - 1) as nat);
        assert forall|k: int| 0 <= k < d.len() implies (#[trigger] d[k]) as u32 == 48 + (n as int
            / pow(10, (d.len() - 1 - k) as nat)) % 10 by {
            if k < e.len() {
                assert(d[k] == e[k]);
                let rest = (e.len() - 1 - k) as nat;
                lemma_pow_adds(10, 1, rest);
                lemma_pow_positive(10, rest);
                lemma_div_denominator(n as int, 10, pow(10, rest));
                assert((1 + rest) as nat == (d.len() - 1 - k) as nat);
                assert(pow(10, (d.len() - 1 - k) as nat) == 10 * pow(10, rest));
                assert(n as int / pow(10, (d.len() - 1 - k) as nat) == (n as int / 10) / pow(
                    10,
                    rest,
                ));
                assert(e[k] as u32 == 48 + (m as int / pow(10, rest)) % 10);
            } else {
                assert((d.len() - 1 - k) as nat == 0);
                assert(d[k] == digit(n % 10));
                assert(n as int / pow(10, 0) == n);
            }
        }
    }
}

/// `k` zeros.
pub open spec fn zeros(k: nat) -> Seq<char> {
    Seq::new(k, |i: int| '0')
}

proof fn lemma_leading_zeros(k: nat, s: Seq<char>)
    ensures
        digits_value(zeros(k) + s) == digits_value(s),
    decreases k + s.len(),
{
    let whole = zeros(k) + s;
    if s.len() > 0 {
        lemma_leading_zeros(k, s.drop_last());
        assert(whole.drop_last() =~= zeros(k) + s.drop_last());
    } else if k > 0 {
        lemma_leading_zeros((k - 1) as nat, s);
        assert(whole.drop_last() =~= zeros((k - 1) as nat) + s);
        assert(whole.last() == '0');
    } else {
        assert(whole =~= s);
    }
}

/// Every number is read from its decimal text, with any number of zeros before
/// it and with or without a plus sign; one that does not fit 32 bits is not
/// read.
pub proof fn law_numeral_reads_decimal(n: nat, k: nat)
    ensures
        ({
            let r = if n <= 0xffff_ffff {
                Some(n as u32)
            } else {
                None
            };
            &&& numeral(zeros(k) + decimal(n)) == r
            &&& numeral(seq!['+'] + (zeros(k) + decimal(n))) == r
        }),
{
    lemma_decimal_digits(n);
    lemma_leading_zeros(k, decimal(n));
    let body = zeros(k) + decimal(n);
    assert forall|i: int| 0 <= i < body.len() implies is_digit(#[trigger] body[i]) by {
        if i >= k {
            assert(body[i] == decimal(n)[i - k]);
        }
    }
    assert(is_digit(body[0]));
    assert(unsigned_part(body) == body);
    let signed = seq!['+'] + body;
    assert(unsigned_part(signed) =~= body);
}

proof fn lemma_digits_are_decimal(s: Seq<char>) -> (k: nat)
    requires
        s.len() > 0,
        forall|i: int| 0 <= i < s.len() ==> is_digit(#[trigger] s[i]),
    ensures
        s == zeros(k) + decimal(digits_value(s)),
    decreases s.len(),
{
    let v = digits_value(s);
    assert(is_digit(s[s.len() - 1]));
    let c: char = s.last();
    let u: u32 = c as u32;
    let d = (u - 48) as nat;
    assert(digit(d) == c) by {
        char_u32_cast(c, u);
    }
    if s.len() == 1 {
        assert(digits_value(s.drop_last()) == 0);
        assert(v == d);
        assert(s =~= zeros(0) + decimal(v));
        0
    } else {
        let before = s.drop_last();
        assert forall|i: int| 0 <= i < before.len() implies is_digit(#[trigger] before[i]) by {
            assert(before[i] == s[i]);
        }
        let k = lemma_digits_are_decimal(before);
        let w = digits_value(before);
        assert(v == w * 10 + d);
        if w > 0 {
            assert(v / 10 == w && v % 10 == d);
            assert(decimal(v) == decimal(w).push(c));
            assert(s =~= before.push(c));
            assert(s =~= zeros(k) + decimal(v));
            k
        } else {
            assert(digit(0) == '0');
            assert(decimal(0) =~= seq!['0']);
            assert(decimal(v) =~= seq![c]);
            assert(before =~= zeros(k + 1));
            assert(s =~= before.push(c));
            assert(s =~= zeros(k + 1) + decimal(v));
            k + 1
        }
    }
}

/// Nothing else is read as a number: a text that is read is the decimal text of
/// what it is read as, with zeros or a plus sign before it at most.
pub proof fn law_numeral_reads_nothing_else(s: Seq<char>)
    ensures
        numeral(s) matches Some(n) ==> exists|k: nat|
            s == #[trigger] zeros(k) + decimal(n as nat) || s == seq!['+'] + (zeros(k) + decimal(
                n as nat,
            )),
{
    if numeral(s) is Some {
        let n = numeral(s)->Some_0;
        let k = lemma_digits_are_decimal(unsigned_part(s));
        let whole = zeros(k) + decimal(n as nat);
        assert(unsigned_part(s) == whole);
        if s[0] == '+' {
            assert(s =~= seq!['+'] + whole);
        }
    }
}

/// The contents of a list are those of its items, one for one.
pub proof fn law_contents_are_one_for_one(texts: Seq<String>, pieces: Seq<Vec<char>>)
    ensures
        texts_of(texts).len() == texts.len(),
        forall|i: int| 0 <= i < texts.len() ==> #[trigger] texts_of(texts)[i] == texts[i]@,
        pieces_of(pieces).len() == pieces.len(),
        forall|i: int| 0 <= i < pieces.len() ==> #[trigger] pieces_of(pieces)[i] == pieces[i]@,
{
}

} // verus!
