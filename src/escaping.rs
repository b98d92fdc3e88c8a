//! Reversible escaping of arbitrary bytes into segments that never hold an
//! unescaped NUL, so that a two-byte terminator can close them.
use vstd::prelude::*;

verus! {

pub const NULL: u8 = 0;

pub const ESCAPE_CHAR: u8 = 1;

pub const ESCAPED_NULL: [u8; 2] = [NULL, ESCAPE_CHAR];

pub const TERMINATE_CHAR: u8 = 255;

pub const TERMINATOR: [u8; 2] = [NULL, TERMINATE_CHAR];

/// What one input byte becomes: NUL turns into `NUL ESCAPE_CHAR`.
pub open spec fn escape_byte(b: u8) -> Seq<u8> {
    if b == NULL {
        seq![NULL, ESCAPE_CHAR]
    } else {
        seq![b]
    }
}

/// The escaped form of `s`: each NUL replaced by `NUL ESCAPE_CHAR`.
pub open spec fn escape_seq(s: Seq<u8>) -> Seq<u8>
    decreases s.len(),
{
    if s.len() == 0 {
        Seq::empty()
    } else {
        escape_seq(s.drop_last()) + escape_byte(s.last())
    }
}

/// Every NUL in `s` is immediately followed by `ESCAPE_CHAR`.
pub open spec fn is_escaped_seq(s: Seq<u8>) -> bool {
    forall|i: int| 0 <= i < s.len() && #[trigger] s[i] == NULL ==> i + 1 < s.len() && s[i + 1] == ESCAPE_CHAR
}

/// The byte string whose escaped form is `e`.
pub open spec fn unescape_seq(e: Seq<u8>) -> Seq<u8> {
    choose|x: Seq<u8>| escape_seq(x) == e
}

/// The terminator as a sequence.
pub open spec fn term_seq() -> Seq<u8> {
    seq![NULL, TERMINATE_CHAR]
}

/// A terminator starts at `i`, and everything before it is escaped.
pub open spec fn terminator_at(s: Seq<u8>, i: int) -> bool {
    &&& 0 <= i
    &&& i + 1 < s.len()
    &&& s[i] == NULL
    &&& s[i + 1] == TERMINATE_CHAR
    &&& is_escaped_seq(s.subrange(0, i))
}

/// A NUL at `i` is followed by neither `ESCAPE_CHAR` nor `TERMINATE_CHAR`,
/// and everything before it is escaped.
pub open spec fn unescaped_null_at(s: Seq<u8>, i: int) -> bool {
    &&& 0 <= i
    &&& i + 1 < s.len()
    &&& s[i] == NULL
    &&& s[i + 1] != ESCAPE_CHAR
    &&& s[i + 1] != TERMINATE_CHAR
    &&& is_escaped_seq(s.subrange(0, i))
}

pub proof fn lemma_escape_len(s: Seq<u8>)
    ensures
        s.len() <= escape_seq(s).len() <= 2 * s.len(),
    decreases s.len(),
{
    if s.len() > 0 {
        lemma_escape_len(s.drop_last());
    }
}

/// The escaped form of any byte string is escaped.
pub proof fn lemma_escape_is_escaped(x: Seq<u8>)
    ensures
        is_escaped_seq(escape_seq(x)),
    decreases x.len(),
{
    if x.len() > 0 {
        lemma_escape_is_escaped(x.drop_last());
        let e = escape_seq(x.drop_last());
        let t = escape_byte(x.last());
        assert forall|i: int| 0 <= i < (e + t).len() && #[trigger] (e + t)[i] == NULL implies i + 1 < (e
            + t).len() && (e + t)[i + 1] == ESCAPE_CHAR by {
            if i < e.len() {
                assert(e[i] == NULL);
            }
        }
    }
}

/// Past an escaped prefix, the first NUL that no `ESCAPE_CHAR` follows is
/// the only one: a terminator, or an unescaped NUL, stands at one offset at
/// most.
pub proof fn lemma_terminator_unique(s: Seq<u8>, i: int, j: int)
    requires
        terminator_at(s, i) || unescaped_null_at(s, i),
        terminator_at(s, j) || unescaped_null_at(s, j),
    ensures
        i == j,
{
    if i < j {
        assert(s.subrange(0, j)[i] == NULL);
        if i + 1 < j {
            assert(s.subrange(0, j)[i + 1] == s[i + 1]);
        }
    } else if j < i {
        assert(s.subrange(0, i)[j] == NULL);
        if j + 1 < i {
            assert(s.subrange(0, i)[j + 1] == s[j + 1]);
        }
    }
}

/// In `escape(x) ‖ TERMINATOR ‖ r` the terminator stands right after the
/// escaped name.
pub proof fn lemma_terminator_after_escape(x: Seq<u8>, r: Seq<u8>)
    ensures
        terminator_at(escape_seq(x) + term_seq() + r, escape_seq(x).len() as int),
{
    let e = escape_seq(x);
    let s = e + term_seq() + r;
    lemma_escape_is_escaped(x);
    assert(s.subrange(0, e.len() as int) =~= e);
}

/// Two composite byte strings `escape(a) ‖ TERMINATOR ‖ r` are equal only if
/// their names and their tails are.
pub proof fn lemma_escaped_prefix_unique(a: Seq<u8>, r1: Seq<u8>, b: Seq<u8>, r2: Seq<u8>)
    requires
        escape_seq(a) + term_seq() + r1 == escape_seq(b) + term_seq() + r2,
    ensures
        a == b,
        r1 == r2,
{
    let s = escape_seq(a) + term_seq() + r1;
    lemma_terminator_after_escape(a, r1);
    lemma_terminator_after_escape(b, r2);
    lemma_terminator_unique(s, escape_seq(a).len() as int, escape_seq(b).len() as int);
    let n = escape_seq(a).len() as int;
    assert(escape_seq(a) =~= s.subrange(0, n));
    assert(escape_seq(b) =~= s.subrange(0, n));
    assert(r1 =~= s.subrange(n + 2, s.len() as int));
    assert(r2 =~= s.subrange(n + 2, s.len() as int));
    lemma_escape_injective(a, b);
}

/// Escaping is one to one.
pub proof fn lemma_escape_injective(a: Seq<u8>, b: Seq<u8>)
    requires
        escape_seq(a) == escape_seq(b),
    ensures
        a == b,
    decreases a.len() + b.len(),
{
    if a.len() > 0 && b.len() > 0 {
        let ea = escape_seq(a.drop_last());
        let eb = escape_seq(b.drop_last());
        let s = escape_seq(a);
        // the last input byte is read off the end of the escaped form
        if a.last() == NULL {
            assert(s[s.len() - 1] == ESCAPE_CHAR);
        } else {
            assert(s[s.len() - 1] == a.last());
        }
        if b.last() == NULL {
            assert(s[s.len() - 1] == ESCAPE_CHAR);
        } else {
            assert(s[s.len() - 1] == b.last());
        }
        if a.last() != NULL && b.last() == NULL {
            // an escaped form never ends in a lone byte ESCAPE_CHAR after a non-NUL
            assert(a.last() == ESCAPE_CHAR);
            lemma_escape_is_escaped(a.drop_last());
            lemma_last_escape_char(a.drop_last(), b.drop_last());
            assert(ea.push(ESCAPE_CHAR) =~= ea + escape_byte(a.last()));
        } else if a.last() == NULL && b.last() != NULL {
            assert(b.last() == ESCAPE_CHAR);
            lemma_escape_is_escaped(b.drop_last());
            lemma_last_escape_char(b.drop_last(), a.drop_last());
            assert(eb.push(ESCAPE_CHAR) =~= eb + escape_byte(b.last()));
        } else {
            assert(ea =~= s.subrange(0, s.len() - escape_byte(a.last()).len()));
            assert(eb =~= s.subrange(0, s.len() - escape_byte(b.last()).len()));
            lemma_escape_injective(a.drop_last(), b.drop_last());
            assert(a =~= a.drop_last().push(a.last()));
            assert(b =~= b.drop_last().push(b.last()));
        }
    } else if a.len() > 0 {
        lemma_escape_len(a);
    } else if b.len() > 0 {
        lemma_escape_len(b);
    }
}

/// `escape(x) ‖ ESCAPE_CHAR` is never `escape(y) ‖ NUL ESCAPE_CHAR`: the
/// first would end in a NUL that nothing escapes.
proof fn lemma_last_escape_char(x: Seq<u8>, y: Seq<u8>)
    requires
        is_escaped_seq(escape_seq(x)),
    ensures
        escape_seq(x).push(ESCAPE_CHAR) != escape_seq(y) + seq![NULL, ESCAPE_CHAR],
{
    let ex = escape_seq(x);
    let ey = escape_seq(y);
    let s = ex.push(ESCAPE_CHAR);
    if s == ey + seq![NULL, ESCAPE_CHAR] {
        assert(s[s.len() - 2] == NULL);
        assert(ex[ex.len() - 1] == NULL);
    }
}

/// Unescaping the escaped form of a byte string gives that byte string back.
pub proof fn lemma_unescape_escape(x: Seq<u8>)
    ensures
        unescape_seq(escape_seq(x)) == x,
{
    let e = escape_seq(x);
    assert(exists|y: Seq<u8>| escape_seq(y) == e);
    let y = unescape_seq(e);
    lemma_escape_injective(y, x);
}

/// Escaped bytes: no NUL in them stands alone.
pub struct EscapedVec(pub(crate) Vec<u8>);

impl View for EscapedVec {
    type V = Seq<u8>;

    closed spec fn view(&self) -> Seq<u8> {
        self.0@
    }
}

impl EscapedVec {
    #[verifier::type_invariant]
    spec fn inv(self) -> bool {
        is_escaped_seq(self.0@)
    }

    /// Checks `bs` and keeps it if it is escaped.
    pub fn try_new(bs: Vec<u8>) -> (r: Result<EscapedVec, NotEscaped>)
        ensures
            r is Ok <==> is_escaped_seq(bs@),
            r is Ok ==> r->Ok_0@ == bs@,
    {
        if is_escaped(bs.as_slice()) {
            Ok(EscapedVec(bs))
        } else {
            Err(NotEscaped)
        }
    }

    /// The unescaped bytes: NUL `ESCAPE_CHAR` pairs turned back into NUL.
    pub fn unescape(&self) -> (out: Vec<u8>)
        ensures
            out@ == unescape_seq(self@),
            escape_seq(out@) == self@,
    {
        proof {
            use_type_invariant(self);
        }
        let e = &self.0;
        let mut out: Vec<u8> = Vec::with_capacity(e.len());
        let mut was_escape = false;
        let mut i: usize = 0;
        while i < e.len()
            invariant
                i <= e@.len(),
                is_escaped_seq(e@),
                !was_escape ==> escape_seq(out@) == e@.subrange(0, i as int),
                was_escape ==> i > 0 && e@[i - 1] == NULL && escape_seq(out@) == e@.subrange(
                    0,
                    i as int,
                ).push(ESCAPE_CHAR),
            decreases e@.len() - i,
        {
            let byt = e[i];
            let ghost before = out@;
            if byt == NULL {
                out.push(NULL);
                was_escape = true;
            } else if was_escape {
                was_escape = false;
            } else {
                out.push(byt);
            }
            proof {
                if out@ != before {
                    assert(out@.drop_last() =~= before);
                }
                assert(e@.subrange(0, i + 1) =~= e@.subrange(0, i as int).push(byt));
            }
            i += 1;
        }
        proof {
            assert(e@.subrange(0, e@.len() as int) =~= e@);
            if was_escape {
                assert(e@[e@.len() - 1] == NULL);
            }
            lemma_unescape_escape(out@);
        }
        out
    }

    /// Borrows the bytes.
    pub fn as_arr(&self) -> (r: EscapedArr<'_>)
        ensures
            r@ == self@,
    {
        proof {
            use_type_invariant(self);
        }
        EscapedArr(self.0.as_slice())
    }

    /// The escaped bytes, to stand as one segment of a composite key.
    pub fn into_segment(self) -> (r: Vec<u8>)
        ensures
            r@ == self@,
            is_escaped_seq(r@),
    {
        proof {
            use_type_invariant(&self);
        }
        self.0
    }
}

/// Borrowed escaped bytes.
#[derive(Copy, Clone)]
pub struct EscapedArr<'a>(&'a [u8]);

impl<'a> View for EscapedArr<'a> {
    type V = Seq<u8>;

    closed spec fn view(&self) -> Seq<u8> {
        self.0@
    }
}

impl<'a> EscapedArr<'a> {
    #[verifier::type_invariant]
    spec fn inv(self) -> bool {
        is_escaped_seq(self.0@)
    }

    /// Checks `bs` and borrows it if it is escaped.
    pub fn try_new(bs: &'a [u8]) -> (r: Result<EscapedArr<'a>, NotEscaped>)
        ensures
            r is Ok <==> is_escaped_seq(bs@),
            r is Ok ==> r->Ok_0@ == bs@,
    {
        if is_escaped(bs) {
            Ok(EscapedArr(bs))
        } else {
            Err(NotEscaped)
        }
    }

    /// The borrowed bytes.
    pub fn as_slice(&self) -> (r: &'a [u8])
        ensures
            r@ == self@,
            is_escaped_seq(r@),
    {
        proof {
            use_type_invariant(self);
        }
        self.0
    }

    /// An owned copy.
    pub fn to_vec(self) -> (r: EscapedVec)
        ensures
            r@ == self@,
    {
        proof {
            use_type_invariant(&self);
        }
        let mut v: Vec<u8> = Vec::new();
        let mut i: usize = 0;
        while i < self.0.len()
            invariant
                i <= self.0@.len(),
                v@ == self.0@.subrange(0, i as int),
            decreases self.0@.len() - i,
        {
            v.push(self.0[i]);
            i += 1;
        }
        assert(v@ =~= self.0@);
        EscapedVec(v)
    }
}

/// Marks bytes that hold a NUL not followed by `ESCAPE_CHAR`.
#[derive(PartialEq, Eq, Structural, Clone, Copy, Debug, Hash)]
pub struct NotEscaped;

/// Why no terminated segment could be split off.
#[derive(PartialEq, Eq, Structural, Clone, Copy, Debug, Hash)]
pub enum InvalidStrings {
    /// A NUL at this offset is followed by neither `ESCAPE_CHAR` nor `TERMINATE_CHAR`.
    UnescapedNull(usize),
    /// The bytes end before any terminator.
    NoTerminator,
}

/// Whether every NUL in `input` is immediately followed by `ESCAPE_CHAR`.
pub fn is_escaped(input: &[u8]) -> (r: bool)
    ensures
        r == is_escaped_seq(input@),
{
    let mut nulls_escaped = true;
    let mut i: usize = 0;
    while i < input.len()
        invariant
            i <= input@.len(),
            nulls_escaped <==> !(i > 0 && input@[i - 1] == NULL),
            forall|j: int|
                0 <= j && j + 1 < i && #[trigger] input@[j] == NULL ==> input@[j + 1] == ESCAPE_CHAR,
        decreases input@.len() - i,
    {
        let byte = input[i];
        if !nulls_escaped {
            if byte == ESCAPE_CHAR {
                nulls_escaped = true;
            } else {
                return false;
            }
        } else if byte == NULL {
            nulls_escaped = false;
        }
        i += 1;
    }
    nulls_escaped
}

/// Escapes `input` into a vector that starts with room for `input.len()` bytes.
pub fn escape_optimistic(input: &[u8]) -> (r: EscapedVec)
    ensures
        r@ == escape_seq(input@),
{
    escape_with_size_hint(input, input.len())
}

/// Escapes `input` into a vector that starts with room for `hint` bytes.
pub fn escape_with_size_hint(input: &[u8], hint: usize) -> (r: EscapedVec)
    ensures
        r@ == escape_seq(input@),
{
    let mut out: Vec<u8> = Vec::with_capacity(hint);
    escape_into(input, &mut out);
    proof {
        assert(out@ =~= escape_seq(input@));
        lemma_escape_is_escaped(input@);
    }
    EscapedVec(out)
}

/// Appends the escaped form of `input` to `out`.
pub fn escape_into(input: &[u8], out: &mut Vec<u8>)
    ensures
        final(out)@ == old(out)@ + escape_seq(input@),
{
    let mut i: usize = 0;
    while i < input.len()
        invariant
            i <= input@.len(),
            out@ == old(out)@ + escape_seq(input@.subrange(0, i as int)),
        decreases input@.len() - i,
    {
        let chr = input[i];
        if chr == NULL {
            out.push(NULL);
            out.push(ESCAPE_CHAR);
        } else {
            out.push(chr);
        }
        proof {
            assert(input@.subrange(0, i + 1).drop_last() =~= input@.subrange(0, i as int));
            assert(out@ =~= old(out)@ + escape_seq(input@.subrange(0, i + 1)));
        }
        i += 1;
    }
    assert(input@.subrange(0, input@.len() as int) =~= input@);
}

/// The offset of the first terminator that is not inside an escape.
pub fn find_terminator(input: &[u8]) -> (r: Result<usize, InvalidStrings>)
    ensures
        match r {
            Ok(i) => terminator_at(input@, i as int),
            Err(InvalidStrings::UnescapedNull(i)) => unescaped_null_at(input@, i as int),
            Err(InvalidStrings::NoTerminator) => forall|i: int|
                !terminator_at(input@, i) && !unescaped_null_at(input@, i),
        },
        forall|i: int| terminator_at(input@, i) ==> r == Ok::<usize, InvalidStrings>(i as usize),
        forall|i: int|
            unescaped_null_at(input@, i) ==> r == Err::<usize, InvalidStrings>(
                InvalidStrings::UnescapedNull(i as usize),
            ),
{
    let r = find_terminator_scan(input);
    proof {
        assert forall|i: int| terminator_at(input@, i) || unescaped_null_at(input@, i) implies (
        terminator_at(input@, i) ==> r == Ok::<usize, InvalidStrings>(i as usize)) && (
        unescaped_null_at(input@, i) ==> r == Err::<usize, InvalidStrings>(
            InvalidStrings::UnescapedNull(i as usize),
        )) by {
            match r {
                Ok(k) => lemma_terminator_unique(input@, k as int, i),
                Err(InvalidStrings::UnescapedNull(k)) => lemma_terminator_unique(input@, k as int, i),
                Err(InvalidStrings::NoTerminator) => {},
            }
        }
    }
    r
}

fn find_terminator_scan(input: &[u8]) -> (r: Result<usize, InvalidStrings>)
    ensures
        match r {
            Ok(i) => terminator_at(input@, i as int),
            Err(InvalidStrings::UnescapedNull(i)) => unescaped_null_at(input@, i as int),
            Err(InvalidStrings::NoTerminator) => forall|i: int|
                !terminator_at(input@, i) && !unescaped_null_at(input@, i),
        },
{
    let mut i: usize = 0;
    let mut k: usize = 0;
    let mut last_was_null = false;
    while k < input.len()
        invariant
            k <= input@.len(),
            last_was_null ==> k == i + 1 && input@[i as int] == NULL,
            !last_was_null ==> k == i,
            is_escaped_seq(input@.subrange(0, i as int)),
        decreases input@.len() - k,
    {
        let byte = input[k];
        if last_was_null {
            if byte == ESCAPE_CHAR {
                last_was_null = false;
                proof {
                    let p = input@.subrange(0, i as int);
                    let q = input@.subrange(0, i + 2);
                    assert forall|j: int| 0 <= j < q.len() && #[trigger] q[j] == NULL implies j + 1 < q.len()
                        && q[j + 1] == ESCAPE_CHAR by {
                        if j < i {
                            assert(p[j] == NULL);
                            assert(q[j + 1] == p[j + 1] || j + 1 == i);
                        }
                    }
                }
                i += 2;
            } else if byte == TERMINATE_CHAR {
                return Ok(i);
            } else {
                return Err(InvalidStrings::UnescapedNull(i));
            }
        } else if byte == NULL {
            last_was_null = true;
        } else {
            proof {
                let p = input@.subrange(0, i as int);
                let q = input@.subrange(0, i + 1);
                assert forall|j: int| 0 <= j < q.len() && #[trigger] q[j] == NULL implies j + 1 < q.len()
                    && q[j + 1] == ESCAPE_CHAR by {
                    if j < i {
                        assert(p[j] == NULL);
                    }
                }
            }
            i += 1;
        }
        k += 1;
    }
    proof {
        assert forall|j: int| !terminator_at(input@, j) && !unescaped_null_at(input@, j) by {
            if 0 <= j < i {
                assert(input@.subrange(0, i as int)[j] == input@[j]);
                if j + 1 < i {
                    assert(input@.subrange(0, i as int)[j + 1] == input@[j + 1]);
                }
            }
        }
    }
    Err(InvalidStrings::NoTerminator)
}

/// Splits `input` at its first terminator into the escaped bytes before it
/// and what follows the terminator.
pub fn take_until_terminator(input: &[u8]) -> (r: Result<(EscapedArr<'_>, &[u8]), InvalidStrings>)
    ensures
        match r {
            Ok((e, rest)) => terminator_at(input@, e@.len() as int) && input@ == e@ + term_seq()
                + rest@,
            Err(InvalidStrings::UnescapedNull(i)) => unescaped_null_at(input@, i as int),
            Err(InvalidStrings::NoTerminator) => forall|i: int|
                !terminator_at(input@, i) && !unescaped_null_at(input@, i),
        },
{
    let found_ix = match find_terminator(input) {
        Ok(i) => i,
        Err(e) => {
            return Err(e);
        },
    };
    let n = input.len();
    let first = vstd::slice::slice_subrange(input, 0, found_ix);
    let rest = vstd::slice::slice_subrange(input, found_ix + 2, n);
    assert(input@ =~= first@ + term_seq() + rest@);
    Ok((EscapedArr(first), rest))
}

/// Splitting `escape(x) ‖ TERMINATOR ‖ r` gives back `escape(x)` and `r`.
pub proof fn lemma_split_composite(x: Seq<u8>, r: Seq<u8>, i: int)
    requires
        terminator_at(escape_seq(x) + term_seq() + r, i) || unescaped_null_at(
            escape_seq(x) + term_seq() + r,
            i,
        ),
    ensures
        i == escape_seq(x).len(),
        terminator_at(escape_seq(x) + term_seq() + r, i),
{
    lemma_terminator_after_escape(x, r);
    lemma_terminator_unique(escape_seq(x) + term_seq() + r, escape_seq(x).len() as int, i);
}

} // verus!
