//! Paths into a document: sequences of segments parsed from JSON-Pointer
//! strings, and the reading of array-index segments.

use crate::errors::PatchError;
use vstd::prelude::*;
use vstd::string::StrSliceExecFns;
use vstd::string::StringExecFns;

verus! {

broadcast use vstd::std_specs::vec::group_vec_axioms, vstd::seq::group_seq_axioms;

/// A parsed path: the decoded segments of a JSON Pointer, in order. The empty
/// sequence addresses the whole document.
#[derive(Debug, PartialEq, Eq)]
pub struct Path {
    pub segments: Vec<String>,
}

/// Model of a vector of segments, segment by segment.
pub open spec fn segs_view(s: Seq<String>) -> Seq<Seq<char>>
    decreases s,
{
    if s.len() == 0 {
        Seq::empty()
    } else {
        seq![s[0]@] + segs_view(s.skip(1))
    }
}

/// The view of a vector of segments has the same length and the segments'
/// views, index by index.
pub broadcast proof fn lemma_segs_view(s: Seq<String>)
    ensures
        #![trigger segs_view(s)]
        segs_view(s).len() == s.len(),
        forall|i: int| 0 <= i < s.len() ==> segs_view(s)[i] == s[i]@,
    decreases s,
{
    if s.len() > 0 {
        lemma_segs_view(s.skip(1));
        assert(s.skip(1).len() == s.len() - 1);
        assert(segs_view(s) == seq![s[0]@] + segs_view(s.skip(1)));
        assert forall|i: int| 0 <= i < s.len() implies segs_view(s)[i] == s[i]@ by {
            if i > 0 {
                assert(segs_view(s)[i] == segs_view(s.skip(1))[i - 1]);
                assert(s.skip(1)[i - 1] == s[i]);
            }
        }
    }
}

impl View for Path {
    type V = Seq<Seq<char>>;

    open spec fn view(&self) -> Seq<Seq<char>> {
        segs_view(self.segments@)
    }
}

impl Path {
    /// The root path: no segments, addressing the whole document.
    pub fn root() -> (r: Path)
        ensures
            r@ == Seq::<Seq<char>>::empty(),
    {
        let r = Path { segments: Vec::new() };
        proof {
            assert(r@ =~= Seq::<Seq<char>>::empty());
        }
        r
    }
}

/// Copies of the segments from position `i` on.
pub fn clone_segs_from(s: &Vec<String>, i: usize) -> (r: Vec<String>)
    requires
        i <= s@.len(),
    ensures
        segs_view(r@) == segs_view(s@.skip(i as int)),
    decreases s@.len() - i,
{
    broadcast use lemma_segs_view;

    if i == s.len() {
        let r: Vec<String> = Vec::new();
        proof {
            assert(segs_view(r@) =~= segs_view(s@.skip(i as int)));
        }
        r
    } else {
        let mut rest = clone_segs_from(s, i + 1);
        rest.insert(0, s[i].clone());
        proof {
            assert(s@.skip(i as int)[0] == s@[i as int]);
            assert(s@.skip(i as int).skip(1) =~= s@.skip(i + 1));
            assert(segs_view(rest@) =~= segs_view(s@.skip(i as int)));
        }
        rest
    }
}

/// A copy of `p`: the same segments.
pub fn clone_path(p: &Path) -> (r: Path)
    ensures
        r@ == p@,
{
    let segments = clone_segs_from(&p.segments, 0);
    proof {
        assert(p.segments@.skip(0) =~= p.segments@);
    }
    Path { segments }
}

/// The path one level below `p`: its segments followed by `seg`.
pub fn path_child(p: &Path, seg: String) -> (r: Path)
    ensures
        r@ == p@.push(seg@),
{
    broadcast use lemma_segs_view;

    let mut segments = clone_segs_from(&p.segments, 0);
    segments.push(seg);
    proof {
        assert(p.segments@.skip(0) =~= p.segments@);
        assert(segs_view(segments@) =~= segs_view(p.segments@).push(segments@.last()@));
    }
    Path { segments }
}

/// Whether `c` is a decimal digit.
pub open spec fn is_digit(c: char) -> bool {
    48 <= c as int <= 57
}

/// The numeric value of a digit.
pub open spec fn digit_val(c: char) -> nat {
    (c as int - 48) as nat
}

/// Whether `s` is a non-empty run of decimal digits.
pub open spec fn is_digits(s: Seq<char>) -> bool {
    s.len() > 0 && forall|i: int| 0 <= i < s.len() ==> is_digit(#[trigger] s[i])
}

/// The number a run of digits denotes, most significant first.
pub open spec fn digits_val(s: Seq<char>) -> nat
    decreases s.len(),
{
    if s.len() == 0 {
        0
    } else {
        digits_val(s.drop_last()) * 10 + digit_val(s.last())
    }
}

/// The array index an individual segment denotes, if it is numeric.
pub open spec fn seg_index(s: Seq<char>) -> Option<nat> {
    if is_digits(s) {
        Option::Some(digits_val(s))
    } else {
        Option::None
    }
}

/// Whether a segment is the append token `-`.
pub open spec fn is_dash(s: Seq<char>) -> bool {
    s == seq!['-']
}

/// How an array segment reads as an index.
pub enum IndexToken {
    /// Not a run of digits.
    NotNumeric,
    /// Numeric, but beyond any representable length.
    TooLarge,
    /// The index itself.
    Index(usize),
}

/// A prefix of a digit run denotes no more than the whole run.
proof fn lemma_digits_val_prefix(s: Seq<char>, i: int)
    requires
        0 <= i <= s.len(),
    ensures
        digits_val(s.subrange(0, i)) <= digits_val(s),
    decreases s.len() - i,
{
    if i < s.len() {
        assert(s.subrange(0, i + 1).drop_last() =~= s.subrange(0, i));
        assert(s.subrange(0, i + 1).last() == s[i]);
        assert(digits_val(s.subrange(0, i + 1)) == digits_val(s.subrange(0, i)) * 10 + digit_val(
            s[i],
        ));
        assert(digits_val(s.subrange(0, i)) * 10 >= digits_val(s.subrange(0, i)));
        lemma_digits_val_prefix(s, i + 1);
        assert(s.subrange(0, s.len() as int) =~= s);
    } else {
        assert(s.subrange(0, i) =~= s);
    }
}

/// Reads a segment as an array index: the digits' value, `TooLarge` when it
/// does not fit the machine, or `NotNumeric`.
pub fn parse_index(s: &String) -> (r: IndexToken)
    ensures
        match r {
            IndexToken::NotNumeric => seg_index(s@) is None,
            IndexToken::TooLarge => match seg_index(s@) {
                Option::Some(n) => n > usize::MAX as nat,
                Option::None => false,
            },
            IndexToken::Index(ix) => seg_index(s@) == Option::Some(ix as nat),
        },
{
    let st = s.as_str();
    let n = st.unicode_len();
    if n == 0 {
        return IndexToken::NotNumeric;
    }
    let mut i: usize = 0;
    let mut acc: usize = 0;
    let mut big: bool = false;
    while i < n
        invariant
            0 <= i <= n,
            n == s@.len(),
            st@ == s@,
            forall|j: int| 0 <= j < i ==> is_digit(#[trigger] s@[j]),
            !big ==> acc as nat == digits_val(s@.subrange(0, i as int)),
            big ==> digits_val(s@.subrange(0, i as int)) > usize::MAX as nat,
        decreases n - i,
    {
        let c = st.get_char(i);
        let cu = c as u32;
        if cu < 48 || cu > 57 {
            proof {
                assert(!is_digit(s@[i as int]));
            }
            return IndexToken::NotNumeric;
        }
        let d = (cu - 48) as usize;
        proof {
            assert(s@.subrange(0, i + 1).drop_last() =~= s@.subrange(0, i as int));
            assert(s@.subrange(0, i + 1).last() == s@[i as int]);
            assert(digits_val(s@.subrange(0, i + 1)) == digits_val(s@.subrange(0, i as int)) * 10
                + digit_val(s@[i as int]));
            assert(digit_val(s@[i as int]) == d as nat);
        }
        if big {
            proof {
                assert(digits_val(s@.subrange(0, i as int)) * 10 >= digits_val(
                    s@.subrange(0, i as int),
                ));
            }
        } else {
            if acc > (usize::MAX - d) / 10 {
                proof {
                    let m = (usize::MAX - d) as int;
                    assert(m == 10 * (m / 10) + m % 10);
                    assert(0 <= m % 10 < 10);
                    assert(acc as int >= m / 10 + 1);
                    assert(acc as int * 10 >= (m / 10 + 1) * 10);
                    assert((m / 10 + 1) * 10 == 10 * (m / 10) + 10);
                    assert(acc as int * 10 + d as int > usize::MAX as int);
                }
                big = true;
            } else {
                proof {
                    let m = (usize::MAX - d) as int;
                    assert(m == 10 * (m / 10) + m % 10);
                    assert(0 <= m % 10 < 10);
                    assert(acc as int <= m / 10);
                    assert(acc as int * 10 <= (m / 10) * 10);
                    assert((m / 10) * 10 <= m);
                    assert(acc as int * 10 + d as int <= usize::MAX as int);
                }
                acc = acc * 10 + d;
            }
        }
        i += 1;
    }
    proof {
        assert(s@.subrange(0, n as int) =~= s@);
        assert(is_digits(s@));
    }
    if big {
        IndexToken::TooLarge
    } else {
        IndexToken::Index(acc)
    }
}

/// Whether the segment is the append token `-`.
pub fn seg_is_dash(s: &String) -> (r: bool)
    ensures
        r == is_dash(s@),
{
    let st = s.as_str();
    if st.unicode_len() == 1 {
        let c = st.get_char(0);
        proof {
            if s@[0] == '-' {
                assert(s@ =~= seq!['-']);
            } else {
                assert(s@ != seq!['-']);
            }
        }
        c == '-'
    } else {
        proof {
            assert(s@.len() != 1);
            assert(seq!['-'].len() == 1);
        }
        false
    }
}

/// What parsing the rest of a pointer yields, with `cur` the segment built
/// so far: segments split on `/`, with `~0` decoded to `~` and `~1` to `/`;
/// a `~` followed by anything else is malformed.
pub open spec fn spec_parse_rest(s: Seq<char>, cur: Seq<char>) -> Result<
    Seq<Seq<char>>,
    PatchError,
>
    decreases s.len(),
{
    if s.len() == 0 {
        Result::Ok(seq![cur])
    } else if s[0] == '/' {
        match spec_parse_rest(s.skip(1), Seq::empty()) {
            Result::Ok(rest) => Result::Ok(seq![cur] + rest),
            Result::Err(e) => Result::Err(e),
        }
    } else if s[0] == '~' {
        if s.len() >= 2 && s[1] == '0' {
            spec_parse_rest(s.skip(2), cur.push('~'))
        } else if s.len() >= 2 && s[1] == '1' {
            spec_parse_rest(s.skip(2), cur.push('/'))
        } else {
            Result::Err(PatchError::InvalidPathSyntax)
        }
    } else {
        spec_parse_rest(s.skip(1), cur.push(s[0]))
    }
}

/// What parsing a whole pointer yields: the empty string is the root, and
/// any other pointer must start with `/`.
pub open spec fn spec_parse_pointer(s: Seq<char>) -> Result<Seq<Seq<char>>, PatchError> {
    if s.len() == 0 {
        Result::Ok(Seq::empty())
    } else if s[0] != '/' {
        Result::Err(PatchError::InvalidPathSyntax)
    } else {
        spec_parse_rest(s.skip(1), Seq::empty())
    }
}

/// Relies on String::push: appends the one character to the string.
#[verifier::external_body]
fn push_char(s: &mut String, c: char)
    ensures
        final(s)@ == old(s)@.push(c),
{
    s.push(c);
}

fn parse_rest(s: &str, i: usize, cur: String, n: usize) -> (r: Result<Vec<String>, PatchError>)
    requires
        i <= s@.len(),
        n == s@.len(),
    ensures
        match r {
            Result::Ok(v) => spec_parse_rest(s@.skip(i as int), cur@) == Result::Ok::<
                Seq<Seq<char>>,
                PatchError,
            >(segs_view(v@)),
            Result::Err(e) => spec_parse_rest(s@.skip(i as int), cur@) == Result::Err::<
                Seq<Seq<char>>,
                PatchError,
            >(e),
        },
    decreases n - i,
{
    broadcast use lemma_segs_view;

    if i == n {
        let ghost c0 = cur@;
        let mut out: Vec<String> = Vec::new();
        out.push(cur);
        proof {
            assert(s@.skip(i as int).len() == 0);
            assert(segs_view(out@) =~= seq![c0]);
        }
        return Result::Ok(out);
    }
    let c = s.get_char(i);
    proof {
        assert(s@.skip(i as int)[0] == s@[i as int]);
        assert(s@.skip(i as int).skip(1) =~= s@.skip(i + 1));
    }
    if c == '/' {
        match parse_rest(s, i + 1, String::new(), n) {
            Result::Ok(mut rest) => {
                let ghost r0 = rest@;
                let ghost c0 = cur@;
                rest.insert(0, cur);
                proof {
                    assert(segs_view(rest@) =~= seq![c0] + segs_view(r0));
                }
                Result::Ok(rest)
            },
            Result::Err(e) => Result::Err(e),
        }
    } else if c == '~' {
        if i + 1 == n {
            proof {
                assert(s@.skip(i as int).len() == 1);
            }
            Result::Err(PatchError::InvalidPathSyntax)
        } else {
            let c2 = s.get_char(i + 1);
            proof {
                assert(s@.skip(i as int)[1] == s@[i + 1]);
                assert(s@.skip(i as int).skip(2) =~= s@.skip(i + 2));
            }
            if c2 == '0' {
                let mut cur2 = cur;
                push_char(&mut cur2, '~');
                parse_rest(s, i + 2, cur2, n)
            } else if c2 == '1' {
                let mut cur2 = cur;
                push_char(&mut cur2, '/');
                parse_rest(s, i + 2, cur2, n)
            } else {
                Result::Err(PatchError::InvalidPathSyntax)
            }
        }
    } else {
        let mut cur2 = cur;
        push_char(&mut cur2, c);
        parse_rest(s, i + 1, cur2, n)
    }
}

/// Parses a JSON-Pointer string into a path, decoding the `~0` and `~1`
/// escapes; a malformed pointer is refused as `InvalidPathSyntax`.
pub fn parse_pointer(s: &str) -> (r: Result<Path, PatchError>)
    ensures
        match r {
            Result::Ok(p) => spec_parse_pointer(s@) == Result::Ok::<Seq<Seq<char>>, PatchError>(
                p@,
            ),
            Result::Err(e) => spec_parse_pointer(s@) == Result::Err::<Seq<Seq<char>>, PatchError>(
                e,
            ),
        },
{
    let n = s.unicode_len();
    if n == 0 {
        let p = Path { segments: Vec::new() };
        proof {
            assert(p@ =~= Seq::<Seq<char>>::empty());
        }
        return Result::Ok(p);
    }
    let c0 = s.get_char(0);
    if c0 != '/' {
        return Result::Err(PatchError::InvalidPathSyntax);
    }
    match parse_rest(s, 1, String::new(), n) {
        Result::Ok(v) => Result::Ok(Path { segments: v }),
        Result::Err(e) => Result::Err(e),
    }
}

/// A segment's characters as they stand in a pointer: `~` written `~0`, `/`
/// written `~1`.
pub open spec fn escape_seg(s: Seq<char>) -> Seq<char>
    decreases s.len(),
{
    if s.len() == 0 {
        Seq::empty()
    } else if s[0] == '~' {
        seq!['~', '0'] + escape_seg(s.skip(1))
    } else if s[0] == '/' {
        seq!['~', '1'] + escape_seg(s.skip(1))
    } else {
        seq![s[0]] + escape_seg(s.skip(1))
    }
}

/// The pointer string a path prints as: each segment escaped, each preceded
/// by `/`; the root prints as the empty string.
pub open spec fn spec_encode(p: Seq<Seq<char>>) -> Seq<char>
    decreases p.len(),
{
    if p.len() == 0 {
        Seq::empty()
    } else {
        seq!['/'] + escape_seg(p[0]) + spec_encode(p.skip(1))
    }
}

fn escape_into(seg: &str, i: usize, out: &mut String)
    requires
        i <= seg@.len(),
    ensures
        final(out)@ == old(out)@ + escape_seg(seg@.skip(i as int)),
    decreases seg@.len() - i,
{
    let n = seg.unicode_len();
    if i == n {
        proof {
            assert(seg@.skip(i as int).len() == 0);
            assert(old(out)@ + escape_seg(seg@.skip(i as int)) =~= old(out)@);
        }
        return ;
    }
    let c = seg.get_char(i);
    proof {
        assert(seg@.skip(i as int)[0] == seg@[i as int]);
        assert(seg@.skip(i as int).skip(1) =~= seg@.skip(i + 1));
        reveal_strlit("~0");
        reveal_strlit("~1");
    }
    if c == '~' {
        out.append("~0");
    } else if c == '/' {
        out.append("~1");
    } else {
        push_char(out, c);
    }
    escape_into(seg, i + 1, out);
    proof {
        assert(out@ =~= old(out)@ + escape_seg(seg@.skip(i as int)));
    }
}

fn encode_into(p: &Path, j: usize, out: &mut String)
    requires
        j <= p.segments@.len(),
    ensures
        final(out)@ == old(out)@ + spec_encode(p@.skip(j as int)),
    decreases p.segments@.len() - j,
{
    broadcast use lemma_segs_view;

    if j == p.segments.len() {
        proof {
            assert(p@.skip(j as int).len() == 0);
            assert(old(out)@ + spec_encode(p@.skip(j as int)) =~= old(out)@);
        }
        return ;
    }
    proof {
        assert(p@.skip(j as int)[0] == p@[j as int]);
        assert(p@[j as int] == p.segments@[j as int]@);
        assert(p@.skip(j as int).skip(1) =~= p@.skip(j + 1));
        reveal_strlit("/");
    }
    out.append("/");
    escape_into(p.segments[j].as_str(), 0, out);
    proof {
        assert(p.segments@[j as int]@.skip(0) =~= p.segments@[j as int]@);
    }
    encode_into(p, j + 1, out);
    proof {
        assert(out@ =~= old(out)@ + spec_encode(p@.skip(j as int)));
    }
}

/// Prints a path as a JSON-Pointer string, encoding the `~0` and `~1`
/// escapes.
pub fn encode_pointer(p: &Path) -> (r: String)
    ensures
        r@ == spec_encode(p@),
{
    let mut out = String::new();
    encode_into(p, 0, &mut out);
    proof {
        assert(p@.skip(0) =~= p@);
        assert(out@ =~= spec_encode(p@));
    }
    out
}

/// The character a digit prints as.
pub open spec fn digit_char(d: nat) -> char {
    if d == 0 {
        '0'
    } else if d == 1 {
        '1'
    } else if d == 2 {
        '2'
    } else if d == 3 {
        '3'
    } else if d == 4 {
        '4'
    } else if d == 5 {
        '5'
    } else if d == 6 {
        '6'
    } else if d == 7 {
        '7'
    } else if d == 8 {
        '8'
    } else {
        '9'
    }
}

/// The decimal spelling of `n`, most significant digit first.
pub open spec fn dec_str(n: nat) -> Seq<char>
    decreases n,
{
    if n < 10 {
        seq![digit_char(n)]
    } else {
        dec_str(n / 10).push(digit_char(n % 10))
    }
}

fn digit_str(d: usize) -> (r: &'static str)
    requires
        d < 10,
    ensures
        r@ == seq![digit_char(d as nat)],
{
    proof {
        reveal_strlit("0");
        reveal_strlit("1");
        reveal_strlit("2");
        reveal_strlit("3");
        reveal_strlit("4");
        reveal_strlit("5");
        reveal_strlit("6");
        reveal_strlit("7");
        reveal_strlit("8");
        reveal_strlit("9");
    }
    let r = if d == 0 {
        "0"
    } else if d == 1 {
        "1"
    } else if d == 2 {
        "2"
    } else if d == 3 {
        "3"
    } else if d == 4 {
        "4"
    } else if d == 5 {
        "5"
    } else if d == 6 {
        "6"
    } else if d == 7 {
        "7"
    } else if d == 8 {
        "8"
    } else {
        "9"
    };
    proof {
        assert(r@ =~= seq![digit_char(d as nat)]);
    }
    r
}

/// The decimal spelling of `n` as a segment string.
pub fn fmt_index(n: usize) -> (r: String)
    ensures
        r@ == dec_str(n as nat),
    decreases n,
{
    if n < 10 {
        String::from_str(digit_str(n))
    } else {
        let mut s = fmt_index(n / 10);
        s.append(digit_str(n % 10));
        proof {
            assert((n as nat) / 10 == (n / 10) as nat);
            assert((n as nat) % 10 == (n % 10) as nat);
            assert(dec_str((n / 10) as nat).push(digit_char((n % 10) as nat)) =~= dec_str(
                (n / 10) as nat,
            ) + seq![digit_char((n % 10) as nat)]);
        }
        s
    }
}

} // verus!
