//! The poem model: an ordered sequence of text lines, constructed from and
//! rendered to three textual representations — cleartext, semi-obfuscated
//! (every line but the last base64-encoded) and fully-obfuscated (every line
//! base64-encoded).

use vstd::prelude::*;
use vstd::utf8::decode_utf8;
use vstd::utf8::encode_utf8;
use vstd::utf8::valid_utf8;
use crate::codec::b64_decode;
use crate::codec::b64_decode_of;
use crate::codec::b64_encode;
use crate::codec::b64_encode_of;
use crate::codec::utf8_string;
use crate::lines::join_lines;
use crate::lines::lemma_join_split;
use crate::lines::lemma_split_join;
use crate::lines::lemma_split_lines_len;
use crate::lines::lemma_split_no_newline;
use crate::lines::newline_count;
use crate::lines::spec_join_lines;
use crate::lines::spec_split_lines;
use crate::lines::split_lines;

verus! {

/// Why decoding an obfuscated text failed: the two stages of decoding a
/// segment give the two kinds.
#[derive(Debug, Clone, Copy, PartialEq, Eq)]
pub enum DeobfuscationError {
    /// A segment is not valid padded base64.
    Base64,
    /// A segment's base64-decoded bytes are not valid UTF-8 text.
    Utf8,
}

impl DeobfuscationError {
    /// A short description of the error kind, for user-visible feedback.
    pub fn describe(&self) -> (r: &'static str)
        ensures
            *self is Base64 ==> r@ == "a segment is not valid base64"@,
            *self is Utf8 ==> r@ == "decoded bytes are not valid UTF-8 text"@,
    {
        match self {
            DeobfuscationError::Base64 => "a segment is not valid base64",
            DeobfuscationError::Utf8 => "decoded bytes are not valid UTF-8 text",
        }
    }
}

/// The obfuscation of one line: the base64 encoding of the line's UTF-8
/// bytes.
pub open spec fn enc_line(l: Seq<char>) -> Seq<char> {
    b64_encode_of(encode_utf8(l))
}

/// The two-staged decoding of one obfuscated segment: base64 first, failing
/// with the base64 kind, then UTF-8, failing with the text-encoding kind.
pub open spec fn dec_line(s: Seq<char>) -> Result<Seq<char>, DeobfuscationError> {
    match b64_decode_of(s) {
        Option::None => Err(DeobfuscationError::Base64),
        Option::Some(b) => if valid_utf8(b) {
            Ok(decode_utf8(b))
        } else {
            Err(DeobfuscationError::Utf8)
        },
    }
}

/// Decoding a sequence of segments in order, aborting at the first failing
/// segment with its error.
pub open spec fn dec_lines(segs: Seq<Seq<char>>) -> Result<Seq<Seq<char>>, DeobfuscationError>
    decreases segs.len(),
{
    if segs.len() == 0 {
        Ok(Seq::<Seq<char>>::empty())
    } else {
        match dec_line(segs.first()) {
            Err(e) => Err(e),
            Ok(l) => match dec_lines(segs.drop_first()) {
                Err(e) => Err(e),
                Ok(rest) => Ok(seq![l] + rest),
            },
        }
    }
}

/// Semi-obfuscated decoding: every segment but the last decoded, the last
/// taken verbatim; zero segments give the zero-line poem.
pub open spec fn dec_semi(segs: Seq<Seq<char>>) -> Result<Seq<Seq<char>>, DeobfuscationError> {
    if segs.len() == 0 {
        Ok(Seq::<Seq<char>>::empty())
    } else {
        match dec_lines(segs.drop_last()) {
            Err(e) => Err(e),
            Ok(ls) => Ok(ls.push(segs.last())),
        }
    }
}

/// The fully-obfuscated rendering: every line encoded, joined with the
/// separator; the zero-line poem renders as empty text.
pub open spec fn spec_fully_obfuscated(lines: Seq<Seq<char>>) -> Seq<char> {
    spec_join_lines(lines.map(|i: int, l: Seq<char>| enc_line(l)))
}

/// The semi-obfuscated rendering: every line but the last encoded, the last
/// verbatim, joined with the separator; the zero-line poem renders as empty
/// text.
pub open spec fn spec_semi_obfuscated(lines: Seq<Seq<char>>) -> Seq<char> {
    if lines.len() == 0 {
        Seq::<char>::empty()
    } else {
        spec_join_lines(
            lines.drop_last().map(|i: int, l: Seq<char>| enc_line(l)).push(lines.last()),
        )
    }
}

/// The lines of a construction result: the poem's lines on success, the
/// error unchanged on failure.
pub open spec fn result_view(r: Result<Poem, DeobfuscationError>) -> Result<
    Seq<Seq<char>>,
    DeobfuscationError,
> {
    match r {
        Ok(p) => Ok(p@),
        Err(e) => Err(e),
    }
}

/// An ordered sequence of text lines; the order is the poem's line order and
/// is preserved through every transformation.
#[derive(Debug, Clone, PartialEq, Eq)]
pub struct Poem {
    lines: Vec<String>,
}

impl View for Poem {
    type V = Seq<Seq<char>>;

    closed spec fn view(&self) -> Seq<Seq<char>> {
        self.lines.deep_view()
    }
}

impl Default for Poem {
    /// The zero-line poem, as distinct from the one-empty-line poem that
    /// `new("")` yields.
    fn default() -> (p: Poem)
        ensures
            p@ == Seq::<Seq<char>>::empty(),
    {
        let p = Poem { lines: Vec::new() };
        proof {
            assert(p@ =~= Seq::<Seq<char>>::empty());
        }
        p
    }
}

impl Poem {
    /// Splits `input` on the line separator into a poem, in order, with no
    /// trimming and no validation; text with `n` separators yields exactly
    /// `n + 1` lines, empty lines preserved. Rendering the poem as cleartext
    /// gives `input` back exactly.
    pub fn new(input: &str) -> (p: Poem)
        ensures
            p@ == spec_split_lines(input@),
            p@.len() == newline_count(input@) + 1,
            spec_join_lines(p@) == input@,
    {
        proof {
            lemma_split_lines_len(input@);
            lemma_join_split(input@);
        }
        Poem { lines: split_lines(input) }
    }

    /// Decodes a semi-obfuscated text: splits on the separator, decodes every
    /// segment but the last, and takes the last verbatim. Fails with the
    /// first failing segment's error kind, returning no partial poem.
    pub fn from_semi_obfuscated(input: &str) -> (r: Result<Poem, DeobfuscationError>)
        ensures
            result_view(r) == dec_semi(spec_split_lines(input@)),
    {
        let segs = split_lines(input);
        let ghost gsegs = spec_split_lines(input@);
        proof {
            lemma_split_lines_len(input@);
        }
        let last: usize = segs.len() - 1;
        let mut lines: Vec<String> = Vec::new();
        let mut i: usize = 0;
        while i < last
            invariant
                i <= last,
                gsegs == spec_split_lines(input@),
                gsegs.len() >= 1,
                last == gsegs.len() - 1,
                segs.deep_view() == gsegs,
                segs@.len() == gsegs.len(),
                lines.deep_view().len() == i,
                forall|j: int|
                    0 <= j < i ==> dec_line(#[trigger] gsegs[j]) == Ok::<
                        Seq<char>,
                        DeobfuscationError,
                    >(lines.deep_view()[j]),
            decreases last - i,
        {
            let ghost l0 = lines.deep_view();
            proof {
                assert(segs@[i as int]@ == gsegs[i as int]);
            }
            match b64_decode(segs[i].as_str()) {
                Option::None => {
                    proof {
                        lemma_dec_lines_err(gsegs.drop_last(), i as int, DeobfuscationError::Base64);
                    }
                    return Err(DeobfuscationError::Base64);
                },
                Option::Some(bytes) => {
                    match utf8_string(bytes) {
                        Option::None => {
                            proof {
                                lemma_dec_lines_err(
                                    gsegs.drop_last(),
                                    i as int,
                                    DeobfuscationError::Utf8,
                                );
                            }
                            return Err(DeobfuscationError::Utf8);
                        },
                        Option::Some(line) => {
                            let ghost lv = line@;
                            lines.push(line);
                            proof {
                                assert(lines.deep_view() =~= l0.push(lv));
                            }
                        },
                    }
                },
            }
            i += 1;
        }
        let ghost l1 = lines.deep_view();
        lines.push(segs[last].clone());
        proof {
            assert(lines.deep_view() =~= l1.push(gsegs.last()));
            lemma_dec_lines_ok(gsegs.drop_last(), l1);
        }
        Ok(Poem { lines })
    }

    /// Decodes a fully-obfuscated text: splits on the separator and decodes
    /// every segment, the last included. Fails with the first failing
    /// segment's error kind, returning no partial poem.
    pub fn from_fully_obfuscated(input: &str) -> (r: Result<Poem, DeobfuscationError>)
        ensures
            result_view(r) == dec_lines(spec_split_lines(input@)),
    {
        let segs = split_lines(input);
        let ghost gsegs = spec_split_lines(input@);
        let mut lines: Vec<String> = Vec::new();
        let mut i: usize = 0;
        while i < segs.len()
            invariant
                i <= segs.len(),
                gsegs == spec_split_lines(input@),
                segs.deep_view() == gsegs,
                segs@.len() == gsegs.len(),
                lines.deep_view().len() == i,
                forall|j: int|
                    0 <= j < i ==> dec_line(#[trigger] gsegs[j]) == Ok::<
                        Seq<char>,
                        DeobfuscationError,
                    >(lines.deep_view()[j]),
            decreases segs.len() - i,
        {
            let ghost l0 = lines.deep_view();
            proof {
                assert(segs@[i as int]@ == gsegs[i as int]);
            }
            match b64_decode(segs[i].as_str()) {
                Option::None => {
                    proof {
                        lemma_dec_lines_err(gsegs, i as int, DeobfuscationError::Base64);
                    }
                    return Err(DeobfuscationError::Base64);
                },
                Option::Some(bytes) => {
                    match utf8_string(bytes) {
                        Option::None => {
                            proof {
                                lemma_dec_lines_err(gsegs, i as int, DeobfuscationError::Utf8);
                            }
                            return Err(DeobfuscationError::Utf8);
                        },
                        Option::Some(line) => {
                            let ghost lv = line@;
                            lines.push(line);
                            proof {
                                assert(lines.deep_view() =~= l0.push(lv));
                            }
                        },
                    }
                },
            }
            i += 1;
        }
        proof {
            lemma_dec_lines_ok(gsegs, lines.deep_view());
        }
        Ok(Poem { lines })
    }

    /// Appends `line` verbatim as a new final line, altering no earlier line.
    pub fn add_line(&mut self, line: &str)
        ensures
            final(self)@ == old(self)@.push(line@),
    {
        let ghost v0 = self@;
        self.lines.push(line.to_owned());
        proof {
            assert(self@ =~= v0.push(line@));
        }
    }

    /// The base64 encoding of the line at `line_index`.
    pub fn line_as_base64(&self, line_index: usize) -> (r: String)
        requires
            line_index < self@.len(),
        ensures
            r@ == enc_line(self@[line_index as int]),
    {
        b64_encode(self.lines[line_index].as_str().as_bytes())
    }

    /// Renders the poem as plain text: the lines joined with the separator,
    /// no encoding.
    pub fn as_cleartext(&self) -> (r: String)
        ensures
            r@ == spec_join_lines(self@),
    {
        join_lines(&self.lines)
    }

    /// Renders every line but the last base64-encoded and the last verbatim,
    /// joined with the separator. Semi-obfuscated decoding of the result
    /// reproduces the lines exactly, for every poem with at least one line
    /// whose last line holds no separator.
    pub fn as_semi_obfuscated(&self) -> (r: String)
        ensures
            r@ == spec_semi_obfuscated(self@),
            self@.len() > 0 && !self@.last().contains('\n') ==> dec_semi(spec_split_lines(r@))
                == Ok::<Seq<Seq<char>>, DeobfuscationError>(self@),
    {
        if self.lines.len() == 0 {
            return String::new();
        }
        let last: usize = self.lines.len() - 1;
        let mut encoded: Vec<String> = Vec::new();
        let mut i: usize = 0;
        while i < last
            invariant
                i <= last,
                last == self@.len() - 1,
                encoded.deep_view().len() == i,
                forall|j: int|
                    0 <= j < i ==> #[trigger] encoded.deep_view()[j] == enc_line(self@[j]),
                forall|j: int|
                    0 <= j < i ==> dec_line(#[trigger] encoded.deep_view()[j]) == Ok::<
                        Seq<char>,
                        DeobfuscationError,
                    >(self@[j]),
                forall|j: int| 0 <= j < i ==> !(#[trigger] encoded.deep_view()[j]).contains('\n'),
            decreases last - i,
        {
            let ghost e0 = encoded.deep_view();
            let ghost l = self@[i as int];
            let enc = b64_encode(self.lines[i].as_str().as_bytes());
            let ghost ev = enc@;
            proof {
                vstd::utf8::encode_utf8_valid_utf8(l);
                vstd::utf8::encode_utf8_decode_utf8(l);
                assert(!ev.contains('\n')) by {
                    if ev.contains('\n') {
                        let k = choose|k: int| 0 <= k < ev.len() && ev[k] == '\n';
                        assert(ev[k] != '\n');
                    }
                }
            }
            encoded.push(enc);
            proof {
                assert(encoded.deep_view() =~= e0.push(ev));
            }
            i += 1;
        }
        let ghost e1 = encoded.deep_view();
        encoded.push(self.lines[last].clone());
        proof {
            assert(encoded.deep_view() =~= e1.push(self@.last()));
        }
        let r = join_lines(&encoded);
        proof {
            assert(encoded.deep_view() =~= self@.drop_last().map(
                |j: int, l: Seq<char>| enc_line(l),
            ).push(self@.last()));
            if !self@.last().contains('\n') {
                lemma_split_join(encoded.deep_view());
                assert(encoded.deep_view().drop_last() =~= e1);
                lemma_dec_lines_ok(e1, self@.drop_last());
                assert(self@.drop_last().push(self@.last()) =~= self@);
            }
        }
        r
    }

    /// Renders every line base64-encoded, the last included, joined with the
    /// separator. Fully-obfuscated decoding of the result reproduces the
    /// lines exactly, for every poem with at least one line.
    pub fn as_fully_obfuscated(&self) -> (r: String)
        ensures
            r@ == spec_fully_obfuscated(self@),
            self@.len() > 0 ==> dec_lines(spec_split_lines(r@)) == Ok::<
                Seq<Seq<char>>,
                DeobfuscationError,
            >(self@),
    {
        let mut encoded: Vec<String> = Vec::new();
        let mut i: usize = 0;
        while i < self.lines.len()
            invariant
                self@.len() == self.lines@.len(),
                i <= self@.len(),
                encoded.deep_view().len() == i,
                forall|j: int|
                    0 <= j < i ==> #[trigger] encoded.deep_view()[j] == enc_line(self@[j]),
                forall|j: int|
                    0 <= j < i ==> dec_line(#[trigger] encoded.deep_view()[j]) == Ok::<
                        Seq<char>,
                        DeobfuscationError,
                    >(self@[j]),
                forall|j: int| 0 <= j < i ==> !(#[trigger] encoded.deep_view()[j]).contains('\n'),
            decreases self.lines@.len() - i,
        {
            let ghost e0 = encoded.deep_view();
            let ghost l = self@[i as int];
            let enc = b64_encode(self.lines[i].as_str().as_bytes());
            let ghost ev = enc@;
            proof {
                vstd::utf8::encode_utf8_valid_utf8(l);
                vstd::utf8::encode_utf8_decode_utf8(l);
                assert(!ev.contains('\n')) by {
                    if ev.contains('\n') {
                        let k = choose|k: int| 0 <= k < ev.len() && ev[k] == '\n';
                        assert(ev[k] != '\n');
                    }
                }
            }
            encoded.push(enc);
            proof {
                assert(encoded.deep_view() =~= e0.push(ev));
            }
            i += 1;
        }
        let r = join_lines(&encoded);
        proof {
            assert(encoded.deep_view() =~= self@.map(|j: int, l: Seq<char>| enc_line(l)));
            if self@.len() > 0 {
                lemma_split_join(encoded.deep_view());
                lemma_dec_lines_ok(encoded.deep_view(), self@);
            }
        }
        r
    }

    /// The number of lines.
    pub fn line_count(&self) -> (n: usize)
        ensures
            n == self@.len(),
    {
        self.lines.len()
    }

    /// The line at `i`.
    pub fn line(&self, i: usize) -> (r: &String)
        requires
            i < self@.len(),
        ensures
            r@ == self@[i as int],
    {
        &self.lines[i]
    }
}

/// Where every segment decodes, decoding the whole sequence succeeds with
/// exactly the segment-wise results.
proof fn lemma_dec_lines_ok(segs: Seq<Seq<char>>, ls: Seq<Seq<char>>)
    requires
        segs.len() == ls.len(),
        forall|j: int|
            0 <= j < segs.len() ==> dec_line(#[trigger] segs[j]) == Ok::<
                Seq<char>,
                DeobfuscationError,
            >(ls[j]),
    ensures
        dec_lines(segs) == Ok::<Seq<Seq<char>>, DeobfuscationError>(ls),
    decreases segs.len(),
{
    if segs.len() == 0 {
        assert(ls =~= Seq::<Seq<char>>::empty());
    } else {
        assert forall|j: int| 0 <= j < segs.drop_first().len() implies dec_line(
            #[trigger] segs.drop_first()[j],
        ) == Ok::<Seq<char>, DeobfuscationError>(ls.drop_first()[j]) by {
            assert(segs.drop_first()[j] == segs[j + 1]);
            assert(ls.drop_first()[j] == ls[j + 1]);
        }
        lemma_dec_lines_ok(segs.drop_first(), ls.drop_first());
        assert(dec_line(segs.first()) == Ok::<Seq<char>, DeobfuscationError>(ls[0]));
        assert(seq![ls[0]] + ls.drop_first() =~= ls);
    }
}

/// Where the first failing segment is at `k`, decoding the whole sequence
/// fails with that segment's error.
proof fn lemma_dec_lines_err(segs: Seq<Seq<char>>, k: int, e: DeobfuscationError)
    requires
        0 <= k < segs.len(),
        forall|j: int| 0 <= j < k ==> (#[trigger] dec_line(segs[j])) is Ok,
        dec_line(segs[k]) == Err::<Seq<char>, DeobfuscationError>(e),
    ensures
        dec_lines(segs) == Err::<Seq<Seq<char>>, DeobfuscationError>(e),
    decreases segs.len(),
{
    if k == 0 {
        assert(dec_line(segs.first()) == Err::<Seq<char>, DeobfuscationError>(e));
    } else {
        assert(dec_line(segs[0]) is Ok);
        assert forall|j: int| 0 <= j < k - 1 implies (#[trigger] dec_line(
            segs.drop_first()[j],
        )) is Ok by {
            assert(segs.drop_first()[j] == segs[j + 1]);
            assert(dec_line(segs[j + 1]) is Ok);
        }
        assert(segs.drop_first()[k - 1] == segs[k]);
        lemma_dec_lines_err(segs.drop_first(), k - 1, e);
    }
}

/// The single-line law: text without the separator forms a one-line poem
/// whose cleartext and semi-obfuscated renderings are the text itself, and
/// whose fully-obfuscated rendering is that single line's encoding.
pub proof fn lemma_single_line(t: Seq<char>)
    requires
        !t.contains('\n'),
    ensures
        spec_split_lines(t) == seq![t],
        spec_join_lines(spec_split_lines(t)) == t,
        spec_semi_obfuscated(spec_split_lines(t)) == t,
        spec_fully_obfuscated(spec_split_lines(t)) == enc_line(t),
{
    lemma_split_no_newline(t);
    assert(seq![t].drop_last().map(|j: int, l: Seq<char>| enc_line(l)).push(seq![t].last())
        =~= seq![t]);
    assert(seq![t].map(|j: int, l: Seq<char>| enc_line(l)) =~= seq![enc_line(t)]);
}

/// Rendering is deterministic: the cleartext of a poem is a pure function of
/// its lines, so two renderings of an unmodified poem coincide.
pub proof fn lemma_cleartext_idempotent(lines: Seq<Seq<char>>, r1: Seq<char>, r2: Seq<char>)
    requires
        r1 == spec_join_lines(lines),
        r2 == spec_join_lines(lines),
    ensures
        r1 == r2,
{
}

/// The cleartext round trip: the poem built from any rendered cleartext has
/// exactly the lines that were rendered, provided no line held the separator
/// and the poem had at least one line.
pub proof fn lemma_cleartext_round_trip(lines: Seq<Seq<char>>)
    requires
        lines.len() >= 1,
        forall|i: int| 0 <= i < lines.len() ==> !(#[trigger] lines[i]).contains('\n'),
    ensures
        spec_split_lines(spec_join_lines(lines)) == lines,
{
    lemma_split_join(lines);
}

} // verus!
