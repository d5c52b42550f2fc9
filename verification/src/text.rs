//! Lines and white-space separated tokens of an ASCII text held as bytes.
use vstd::prelude::*;
use vstd::string::*;

verus! {

/// The bytes of a string of ASCII characters.
pub open spec fn ascii(s: Seq<char>) -> Seq<u8> {
    Seq::new(s.len(), |i: int| s[i] as u8)
}

/// The six ASCII white-space bytes: tab, line feed, vertical tab, form feed,
/// carriage return and space.
pub open spec fn is_space(b: u8) -> bool {
    b == 9 || b == 10 || b == 11 || b == 12 || b == 13 || b == 32
}

/// Index of the line feed that ends the line starting at `from`, or the
/// length of the text when the last line has none.
pub open spec fn line_end(s: Seq<u8>, from: int) -> int
    decreases s.len() - from,
{
    if from >= s.len() {
        s.len() as int
    } else if s[from] == 10 {
        from
    } else {
        line_end(s, from + 1)
    }
}

/// Where the line after the one starting at `from` begins.
pub open spec fn line_next(s: Seq<u8>, from: int) -> int {
    let e = line_end(s, from);
    if e < s.len() {
        e + 1
    } else {
        e
    }
}

/// First index in `[from, to)` that holds no white space, or `to`.
pub open spec fn skip_spaces(s: Seq<u8>, from: int, to: int) -> int
    decreases to - from,
{
    if from >= to {
        to
    } else if !is_space(s[from]) {
        from
    } else {
        skip_spaces(s, from + 1, to)
    }
}

/// First index in `[from, to)` that holds white space, or `to`.
pub open spec fn token_end(s: Seq<u8>, from: int, to: int) -> int
    decreases to - from,
{
    if from >= to {
        to
    } else if is_space(s[from]) {
        from
    } else {
        token_end(s, from + 1, to)
    }
}

/// The tokens of `s[from..to)`: its maximal runs of bytes that are not white
/// space, in order.
pub open spec fn tokens(s: Seq<u8>, from: int, to: int) -> Seq<Seq<u8>>
    decreases to - from,
{
    let a = skip_spaces(s, from, to);
    let b = token_end(s, a + 1, to);
    if 0 <= from <= a < to <= s.len() {
        proof {
            lemma_token_end_bounds(s, a + 1, to);
        }
        seq![s.subrange(a, b)] + tokens(s, b, to)
    } else {
        seq![]
    }
}

/// A line ends at the first line feed at or after its start.
pub proof fn lemma_line_end_bounds(s: Seq<u8>, from: int)
    requires
        0 <= from <= s.len(),
    ensures
        from <= line_end(s, from) <= s.len(),
        line_end(s, from) < s.len() ==> s[line_end(s, from)] == 10,
        forall|i: int| from <= i < line_end(s, from) ==> s[i] != 10,
    decreases s.len() - from,
{
    if from < s.len() && s[from] != 10 {
        lemma_line_end_bounds(s, from + 1);
    }
}

/// A token ends at the first white space at or after its start.
pub proof fn lemma_token_end_bounds(s: Seq<u8>, from: int, to: int)
    requires
        0 <= from <= to <= s.len(),
    ensures
        from <= token_end(s, from, to) <= to,
        token_end(s, from, to) < to ==> is_space(s[token_end(s, from, to)]),
        forall|i: int| from <= i < token_end(s, from, to) ==> !is_space(s[i]),
    decreases to - from,
{
    if from < to && !is_space(s[from]) {
        lemma_token_end_bounds(s, from + 1, to);
    }
}

/// Whether `b` is white space.
pub fn is_space_byte(b: u8) -> (r: bool)
    ensures
        r == is_space(b),
{
    b == 9 || b == 10 || b == 11 || b == 12 || b == 13 || b == 32
}

/// Finds the end of the line that starts at `from`.
pub fn find_line_end(s: &[u8], from: usize) -> (r: usize)
    requires
        from <= s@.len(),
    ensures
        r == line_end(s@, from as int),
        from <= r <= s@.len(),
{
    let mut i: usize = from;
    while i < s.len() && s[i] != 10
        invariant
            from <= i <= s@.len(),
            line_end(s@, from as int) == line_end(s@, i as int),
        decreases s@.len() - i,
    {
        i += 1;
    }
    i
}

/// Start of the following line, given the end of this one.
pub fn after_line(s: &[u8], end: usize) -> (r: usize)
    requires
        end <= s@.len(),
    ensures
        r == if end < s@.len() { end + 1 } else { end as int },
        end <= r <= s@.len(),
{
    if end < s.len() {
        end + 1
    } else {
        end
    }
}

/// Skips white space from `from`, stopping at `to`.
pub fn find_token_start(s: &[u8], from: usize, to: usize) -> (r: usize)
    requires
        from <= to <= s@.len(),
    ensures
        r == skip_spaces(s@, from as int, to as int),
        from <= r <= to,
{
    let mut i: usize = from;
    while i < to && is_space_byte(s[i])
        invariant
            from <= i <= to <= s@.len(),
            skip_spaces(s@, from as int, to as int) == skip_spaces(s@, i as int, to as int),
        decreases to - i,
    {
        i += 1;
    }
    i
}

/// Runs over a token from `from`, stopping at white space or at `to`.
pub fn find_token_end(s: &[u8], from: usize, to: usize) -> (r: usize)
    requires
        from <= to <= s@.len(),
    ensures
        r == token_end(s@, from as int, to as int),
        from <= r <= to,
{
    let mut i: usize = from;
    while i < to && !is_space_byte(s[i])
        invariant
            from <= i <= to <= s@.len(),
            token_end(s@, from as int, to as int) == token_end(s@, i as int, to as int),
        decreases to - i,
    {
        i += 1;
    }
    i
}

/// The next token of `s[from..to)` as a pair of bounds, or `None` when only
/// white space is left.
pub fn next_token(s: &[u8], from: usize, to: usize) -> (r: Option<(usize, usize)>)
    requires
        from <= to <= s@.len(),
    ensures
        match r {
            Some((a, b)) => from <= a < b <= to
                && tokens(s@, from as int, to as int) == seq![s@.subrange(a as int, b as int)]
                + tokens(s@, b as int, to as int),
            None => tokens(s@, from as int, to as int) == Seq::<Seq<u8>>::empty(),
        },
{
    let a = find_token_start(s, from, to);
    if a < to {
        let b = find_token_end(s, a + 1, to);
        Some((a, b))
    } else {
        None
    }
}

/// Whether two byte strings are the same.
pub fn same_bytes(x: &[u8], y: &[u8]) -> (r: bool)
    ensures
        r == (x@ == y@),
{
    if x.len() != y.len() {
        return false;
    }
    let mut i: usize = 0;
    while i < x.len()
        invariant
            x@.len() == y@.len(),
            0 <= i <= x@.len(),
            forall|j: int| 0 <= j < i ==> x@[j] == y@[j],
        decreases x@.len() - i,
    {
        if x[i] != y[i] {
            return false;
        }
        i += 1;
    }
    proof {
        assert(x@ =~= y@);
    }
    true
}

/// Whether the bytes `x` spell the ASCII word `word`.
pub fn is_word(x: &[u8], word: &str) -> (r: bool)
    requires
        is_ascii(word),
    ensures
        r == (x@ == ascii(word@)),
{
    proof {
        is_ascii_spec_bytes(word);
    }
    same_bytes(x, word.as_bytes())
}

} // verus!
