//! Hierarchical facet values and their byte encoding.

use vstd::prelude::*;
use vstd::slice::slice_subrange;
use vstd::string::StringSliceAdditionalSpecFns;
use vstd::utf8::{decode_utf8, valid_utf8};
use crate::common::serialize::{
    BinarySerializable, CodecError, decode_bytes, deserialize_bytes, encode_bytes, lemma_decode_encode_bytes,
    serialize_bytes,
};

verus! {

/// The byte that separates the steps of an encoded facet.
pub const FACET_SEP_BYTE: u8 = 31;

/// The byte `/`, which separates the steps of a facet path.
pub const SLASH_BYTE: u8 = 47;

/// The byte `\`, which escapes the byte after it in a facet path.
pub const ESCAPE_BYTE: u8 = 92;

/// A step byte as it is written in a path: `/` and `\` get a `\` in front.
pub open spec fn escape_byte(b: u8) -> Seq<u8> {
    if b == SLASH_BYTE || b == ESCAPE_BYTE {
        seq![ESCAPE_BYTE, b]
    } else {
        seq![b]
    }
}

/// A step as it is written in a path.
pub open spec fn escaped(step: Seq<u8>) -> Seq<u8>
    decreases step.len(),
{
    if step.len() == 0 {
        seq![]
    } else {
        escaped(step.drop_last()) + escape_byte(step.last())
    }
}

/// An encoded byte as it is written in a path: a separator becomes `/`.
pub open spec fn render_byte(b: u8) -> Seq<u8> {
    if b == FACET_SEP_BYTE {
        seq![SLASH_BYTE]
    } else {
        escape_byte(b)
    }
}

/// The part of a path after its leading `/`.
pub open spec fn render_steps(encoded: Seq<u8>) -> Seq<u8>
    decreases encoded.len(),
{
    if encoded.len() == 0 {
        seq![]
    } else {
        render_steps(encoded.drop_last()) + render_byte(encoded.last())
    }
}

/// The path of an encoded facet: `/step1/step2/...`, the root being `/`.
pub open spec fn render_path(encoded: Seq<u8>) -> Seq<u8> {
    seq![SLASH_BYTE] + render_steps(encoded)
}

/// The encoding read so far from a path, and whether the last byte was an
/// unconsumed `\`.
pub open spec fn parse_steps(path: Seq<u8>) -> (Seq<u8>, bool)
    decreases path.len(),
{
    if path.len() == 0 {
        (seq![], false)
    } else {
        let (encoded, escaping) = parse_steps(path.drop_last());
        let b = path.last();
        if escaping {
            (encoded.push(b), false)
        } else if b == ESCAPE_BYTE {
            (encoded, true)
        } else if b == SLASH_BYTE {
            (encoded.push(FACET_SEP_BYTE), false)
        } else {
            (encoded.push(b), false)
        }
    }
}

/// The encoding of the facet that `path` denotes. The first byte stands for
/// the leading `/`.
pub open spec fn parse_path(path: Seq<u8>) -> Seq<u8> {
    parse_steps(path.skip(1)).0
}

/// Steps joined by the separator byte, with no separator in front.
pub open spec fn join_steps(steps: Seq<Seq<u8>>) -> Seq<u8>
    decreases steps.len(),
{
    if steps.len() == 0 {
        seq![]
    } else if steps.len() == 1 {
        steps[0]
    } else {
        join_steps(steps.drop_last()) + seq![FACET_SEP_BYTE] + steps.last()
    }
}

/// The bytes of `Facet(`, the path, and `)`.
pub open spec fn debug_bytes(encoded: Seq<u8>) -> Seq<u8> {
    seq![70u8, 97u8, 99u8, 101u8, 116u8, 40u8] + render_path(encoded) + seq![41u8]
}

/// The UTF-8 bytes of each step.
pub open spec fn step_bytes(path: Seq<&str>) -> Seq<Seq<u8>> {
    Seq::new(path.len(), |i: int| path[i].spec_bytes())
}

/// The positions below `n` at which `encoded` holds a separator, ascending.
pub open spec fn cuts_upto(encoded: Seq<u8>, n: int) -> Seq<int>
    decreases n,
{
    if n <= 0 {
        seq![]
    } else if encoded[n - 1] == FACET_SEP_BYTE {
        cuts_upto(encoded, n - 1).push(n - 1)
    } else {
        cuts_upto(encoded, n - 1)
    }
}

/// Where the ancestors of an encoded facet end: at each separator, and
/// finally at the end of the facet itself.
pub open spec fn prefix_cuts(encoded: Seq<u8>) -> Seq<int> {
    cuts_upto(encoded, encoded.len() as int).push(encoded.len() as int)
}

/// The number of separator bytes in `encoded`.
pub open spec fn count_sep(encoded: Seq<u8>) -> nat {
    cuts_upto(encoded, encoded.len() as int).len()
}

/// The depth of an encoded facet: 0 for the root, else one more than the
/// number of separators.
pub open spec fn depth_of(encoded: Seq<u8>) -> nat {
    if encoded.len() == 0 {
        0
    } else {
        count_sep(encoded) + 1
    }
}

/// Neither a separator nor a NUL byte occurs in `bytes`.
pub open spec fn is_clean(bytes: Seq<u8>) -> bool {
    forall|i: int| 0 <= i < bytes.len() ==> bytes[i] != FACET_SEP_BYTE && bytes[i] != 0
}

/// What `String::from_utf8_lossy` makes of a byte string.
pub uninterp spec fn utf8_lossy(bytes: Seq<u8>) -> Seq<char>;

/// Calls `String::from_utf8_lossy`: the text of `bytes`, which for valid UTF-8
/// is its decoding.
#[verifier::external_body]
fn string_from_utf8_lossy(bytes: &[u8]) -> (text: String)
    ensures
        text@ == utf8_lossy(bytes@),
        valid_utf8(bytes@) ==> text@ == decode_utf8(bytes@),
{
    String::from_utf8_lossy(bytes).into_owned()
}

/// The pattern that matches one `\` or one `/`.
pub open spec fn slash_class() -> Seq<char> {
    "[\\\\/]"@
}

/// The replacement that puts a `\` in front of a match.
pub open spec fn escape_by_backslash() -> Seq<char> {
    "\\$0"@
}

/// Calls `regex::bytes::Regex::new` on `pattern` and `Regex::replace_all` on
/// `text`; `None` where the pattern does not compile. For the class of `\` and
/// `/`, replaced by a `\` and the match itself, every match is one byte and
/// the result is `text` with each such byte escaped.
#[verifier::external_body]
fn regex_replace_all(pattern: &str, text: &[u8], replacement: &str) -> (res: Option<Vec<u8>>)
    ensures
        res matches Some(out) ==> pattern@ == slash_class() && replacement@ == escape_by_backslash() ==> out@
            == escaped(text@),
        res is None ==> !(pattern@ == slash_class()),
{
    match regex::bytes::Regex::new(pattern) {
        Ok(re) => Some(re.replace_all(text, replacement.as_bytes()).into_owned()),
        Err(_) => None,
    }
}

/// A step with a `\` in front of each `/` and `\`.
pub fn escape_slashes(step: &[u8]) -> (out: Vec<u8>)
    ensures
        out@ == escaped(step@),
{
    match regex_replace_all("[\\\\/]", step, "\\$0") {
        Some(out) => out,
        None => Vec::new(),
    }
}

/// Paths of concatenated encodings concatenate.
pub proof fn lemma_render_steps_concat(a: Seq<u8>, b: Seq<u8>)
    ensures
        render_steps(a + b) == render_steps(a) + render_steps(b),
    decreases b.len(),
{
    if b.len() == 0 {
        assert(a + b == a);
    } else {
        assert((a + b).drop_last() == a + b.drop_last());
        lemma_render_steps_concat(a, b.drop_last());
    }
}

/// A stretch without separators is rendered by escaping alone.
pub proof fn lemma_render_step(step: Seq<u8>)
    requires
        forall|i: int| 0 <= i < step.len() ==> step[i] != FACET_SEP_BYTE,
    ensures
        render_steps(step) == escaped(step),
    decreases step.len(),
{
    if step.len() > 0 {
        lemma_render_step(step.drop_last());
    }
}

/// Parsing the path of an encoded facet gives the encoding back.
pub proof fn lemma_parse_rendered(encoded: Seq<u8>)
    ensures
        parse_steps(render_steps(encoded)) == (encoded, false),
        parse_path(render_path(encoded)) == encoded,
    decreases encoded.len(),
{
    if encoded.len() > 0 {
        let front = encoded.drop_last();
        let b = encoded.last();
        lemma_parse_rendered(front);
        let head = render_steps(front);
        let all = render_steps(encoded);
        assert(all == head + render_byte(b));
        assert(front.push(b) == encoded);
        if b == FACET_SEP_BYTE {
            assert(all == head.push(SLASH_BYTE));
            assert(all.drop_last() == head);
            assert(all.last() == SLASH_BYTE);
        } else if b == SLASH_BYTE || b == ESCAPE_BYTE {
            let mid = head.push(ESCAPE_BYTE);
            assert(all == mid.push(b));
            assert(all.drop_last() == mid);
            assert(all.last() == b);
            assert(mid.drop_last() == head);
            assert(mid.last() == ESCAPE_BYTE);
            assert(parse_steps(mid) == (front, true));
        } else {
            assert(all == head.push(b));
            assert(all.drop_last() == head);
            assert(all.last() == b);
        }
        assert(parse_steps(all) == (encoded, false));
    }
    assert(render_path(encoded).skip(1) == render_steps(encoded));
}

/// A facet has one ancestor boundary per separator, and its own end.
pub proof fn lemma_prefix_cuts(encoded: Seq<u8>)
    ensures
        prefix_cuts(encoded).len() == count_sep(encoded) + 1,
        prefix_cuts(encoded).last() == encoded.len(),
        forall|k: int|
            0 <= k < prefix_cuts(encoded).len() - 1 ==> 0 <= #[trigger] prefix_cuts(encoded)[k] < encoded.len()
                && encoded[prefix_cuts(encoded)[k]] == FACET_SEP_BYTE,
        forall|j: int, k: int|
            0 <= j < k < prefix_cuts(encoded).len() ==> prefix_cuts(encoded)[j] < prefix_cuts(encoded)[k],
{
    lemma_cuts_upto(encoded, encoded.len() as int);
}

/// The separator positions below `n` are in range, ascending, and complete.
pub proof fn lemma_cuts_upto(encoded: Seq<u8>, n: int)
    requires
        0 <= n <= encoded.len(),
    ensures
        forall|k: int|
            0 <= k < cuts_upto(encoded, n).len() ==> 0 <= #[trigger] cuts_upto(encoded, n)[k] < n && encoded[cuts_upto(
                encoded,
                n,
            )[k]] == FACET_SEP_BYTE,
        forall|j: int, k: int|
            0 <= j < k < cuts_upto(encoded, n).len() ==> cuts_upto(encoded, n)[j] < cuts_upto(encoded, n)[k],
        forall|p: int|
            0 <= p < n && encoded[p] == FACET_SEP_BYTE ==> cuts_upto(encoded, n).contains(p),
    decreases n,
{
    if n > 0 {
        lemma_cuts_upto(encoded, n - 1);
        let rest = cuts_upto(encoded, n - 1);
        let all = cuts_upto(encoded, n);
        assert forall|p: int| 0 <= p < n && encoded[p] == FACET_SEP_BYTE implies all.contains(p) by {
            if p < n - 1 {
                let k = choose|k: int| 0 <= k < rest.len() && rest[k] == p;
                assert(all[k] == p);
            } else {
                assert(all[all.len() - 1] == p);
            }
        }
    }
}


/// A hierarchical categorical value such as `/lang/en`, held as its steps
/// joined by the separator byte. The root facet has no bytes.
#[derive(PartialEq, Eq, PartialOrd, Ord)]
pub struct Facet(Vec<u8>);

impl View for Facet {
    type V = Seq<u8>;

    closed spec fn view(&self) -> Seq<u8> {
        self.0@
    }
}

impl Clone for Facet {
    fn clone(&self) -> (copy: Self)
        ensures
            copy@ == self@,
    {
        Facet(self.0.clone())
    }
}

impl Facet {
    /// The root facet.
    pub fn new() -> (facet: Facet)
        ensures
            facet@ == Seq::<u8>::empty(),
    {
        Facet(Vec::new())
    }

    /// The root facet.
    pub fn root() -> (facet: Facet)
        ensures
            facet@ == Seq::<u8>::empty(),
    {
        Facet(Vec::new())
    }

    /// Whether this is the root facet.
    pub fn is_root(&self) -> (root: bool)
        ensures
            root == (self@.len() == 0),
    {
        self.0.len() == 0
    }

    /// The encoded bytes.
    pub fn encoded_bytes(&self) -> (bytes: &[u8])
        ensures
            bytes@ == self@,
    {
        self.0.as_slice()
    }

    /// The facet with the given encoding.
    pub fn from_encoded(encoded_bytes: Vec<u8>) -> (facet: Facet)
        ensures
            facet@ == encoded_bytes@,
    {
        Facet(encoded_bytes)
    }

    /// The facet whose steps are `path`. No step may hold a separator or a NUL
    /// byte.
    pub fn from_path(path: Vec<&str>) -> (facet: Facet)
        requires
            forall|i: int| 0 <= i < path@.len() ==> is_clean(#[trigger] path@[i].spec_bytes()),
        ensures
            facet@ == join_steps(step_bytes(path@)),
    {
        let mut facet_bytes: Vec<u8> = Vec::new();
        let mut i: usize = 0;
        while i < path.len()
            invariant
                i <= path@.len(),
                facet_bytes@ == join_steps(step_bytes(path@).take(i as int)),
            decreases path@.len() - i,
        {
            let ghost steps = step_bytes(path@);
            let step = path[i].as_bytes();
            if i > 0 {
                facet_bytes.push(FACET_SEP_BYTE);
            }
            let mut copy = vstd::slice::slice_to_vec(step);
            facet_bytes.append(&mut copy);
            proof {
                assert(steps.take(i + 1).drop_last() == steps.take(i as int));
                assert(steps.take(i + 1).last() == step@);
                if i == 0 {
                    assert(steps.take(1)[0] == step@);
                }
            }
            i = i + 1;
        }
        proof {
            assert(step_bytes(path@).take(i as int) == step_bytes(path@));
        }
        Facet(facet_bytes)
    }

    /// Parses a path such as `/first/sec\/ond`: after the first byte, a `\`
    /// makes the next byte literal and a bare `/` starts a new step. The path
    /// is not empty and holds neither a separator nor a NUL byte.
    pub fn from_str(path: &str) -> (facet: Facet)
        requires
            path.spec_bytes().len() >= 1,
            is_clean(path.spec_bytes()),
        ensures
            facet@ == parse_path(path.spec_bytes()),
    {
        let path_bytes = path.as_bytes();
        let mut facet_encoded: Vec<u8> = Vec::new();
        let mut escaping = false;
        let mut i: usize = 1;
        proof {
            assert(path_bytes@.skip(1).take(0) == Seq::<u8>::empty());
        }
        while i < path_bytes.len()
            invariant
                1 <= i <= path_bytes@.len(),
                (facet_encoded@, escaping) == parse_steps(path_bytes@.skip(1).take(i - 1)),
            decreases path_bytes@.len() - i,
        {
            let c = path_bytes[i];
            proof {
                let rest = path_bytes@.skip(1);
                assert(rest.take(i as int).drop_last() == rest.take(i - 1));
                assert(rest.take(i as int).last() == c);
            }
            if escaping {
                escaping = false;
                facet_encoded.push(c);
            } else if c == ESCAPE_BYTE {
                escaping = true;
            } else if c == SLASH_BYTE {
                facet_encoded.push(FACET_SEP_BYTE);
            } else {
                facet_encoded.push(c);
            }
            i = i + 1;
        }
        proof {
            assert(path_bytes@.skip(1).take(i - 1) == path_bytes@.skip(1));
        }
        Facet(facet_encoded)
    }

    /// The buffer that holds the encoding, for a reader to fill in place.
    pub fn inner_buffer_mut(&mut self) -> (buffer: &mut Vec<u8>)
        ensures
            buffer@ == old(self)@,
            final(self)@ == final(buffer)@,
    {
        &mut self.0
    }

    /// The path as bytes: a `/` before each step, and a `\` before each `/` and
    /// `\` inside a step.
    pub fn path_bytes(&self) -> (path: Vec<u8>)
        ensures
            path@ == render_path(self@),
    {
        let bytes = self.0.as_slice();
        let mut out: Vec<u8> = Vec::new();
        out.push(SLASH_BYTE);
        let mut start: usize = 0;
        let mut pos: usize = 0;
        proof {
            assert(bytes@.take(0) == Seq::<u8>::empty());
        }
        while pos < bytes.len()
            invariant
                start <= pos <= bytes@.len(),
                bytes@ == self@,
                out@ == render_path(bytes@.take(start as int)),
                forall|i: int| start <= i < pos ==> bytes@[i] != FACET_SEP_BYTE,
            decreases bytes@.len() - pos,
        {
            if bytes[pos] == FACET_SEP_BYTE {
                let step = slice_subrange(bytes, start, pos);
                let mut escaped_step = escape_slashes(step);
                out.append(&mut escaped_step);
                out.push(SLASH_BYTE);
                proof {
                    let done = bytes@.take(start as int);
                    let sep = seq![FACET_SEP_BYTE];
                    assert(bytes@.take(pos + 1) == done + step@ + sep);
                    lemma_render_steps_concat(done + step@, sep);
                    lemma_render_steps_concat(done, step@);
                    lemma_render_step(step@);
                    assert(sep.drop_last() == Seq::<u8>::empty());
                    assert(render_steps(Seq::<u8>::empty()) == Seq::<u8>::empty());
                    assert(render_steps(sep) == seq![SLASH_BYTE]);
                }
                start = pos + 1;
            }
            pos = pos + 1;
        }
        let step = slice_subrange(bytes, start, pos);
        let mut escaped_step = escape_slashes(step);
        out.append(&mut escaped_step);
        proof {
            let done = bytes@.take(start as int);
            assert(bytes@ == done + step@);
            lemma_render_steps_concat(done, step@);
            lemma_render_step(step@);
        }
        out
    }

    /// The path as text, `/` for the root. Bytes that are not valid UTF-8
    /// come out as the replacement character.
    pub fn to_string(&self) -> (path: String)
        ensures
            path@ == utf8_lossy(render_path(self@)),
            valid_utf8(render_path(self@)) ==> path@ == decode_utf8(render_path(self@)),
    {
        let bytes = self.path_bytes();
        string_from_utf8_lossy(bytes.as_slice())
    }

    /// The facet as it shows in debugging output: its path between `Facet(`
    /// and `)`.
    pub fn to_debug_string(&self) -> (text: String)
        ensures
            text@ == utf8_lossy(debug_bytes(self@)),
            valid_utf8(debug_bytes(self@)) ==> text@ == decode_utf8(debug_bytes(self@)),
    {
        let mut bytes: Vec<u8> = Vec::new();
        bytes.push(70);
        bytes.push(97);
        bytes.push(99);
        bytes.push(101);
        bytes.push(116);
        bytes.push(40);
        let mut path = self.path_bytes();
        bytes.append(&mut path);
        bytes.push(41);
        proof {
            assert(bytes@ == debug_bytes(self@));
        }
        string_from_utf8_lossy(bytes.as_slice())
    }

    /// The encodings of the ancestors of this facet, nearest to the root
    /// first, and last the facet's own.
    pub fn prefixes(&self) -> (prefixes: Vec<&[u8]>)
        ensures
            prefixes@.len() == prefix_cuts(self@).len(),
            forall|k: int|
                0 <= k < prefixes@.len() ==> (#[trigger] prefixes@[k])@ == self@.take(prefix_cuts(self@)[k]),
    {
        let bytes = self.0.as_slice();
        let mut prefixes: Vec<&[u8]> = Vec::new();
        let mut pos: usize = 0;
        while pos < bytes.len()
            invariant
                pos <= bytes@.len(),
                bytes@ == self@,
                prefixes@.len() == cuts_upto(bytes@, pos as int).len(),
                forall|k: int|
                    0 <= k < prefixes@.len() ==> (#[trigger] prefixes@[k])@ == bytes@.take(
                        cuts_upto(bytes@, pos as int)[k],
                    ),
            decreases bytes@.len() - pos,
        {
            if bytes[pos] == FACET_SEP_BYTE {
                let prefix = slice_subrange(bytes, 0, pos);
                prefixes.push(prefix);
            }
            pos = pos + 1;
        }
        let whole = slice_subrange(bytes, 0, pos);
        prefixes.push(whole);
        prefixes
    }
}


impl BinarySerializable for Facet {
    open spec fn encodable(v: Seq<u8>) -> bool {
        v.len() <= u32::MAX
    }

    open spec fn encode(v: Seq<u8>) -> Seq<u8> {
        encode_bytes(v)
    }

    open spec fn decode(bytes: Seq<u8>) -> Result<(Seq<u8>, int), CodecError> {
        decode_bytes(bytes)
    }

    proof fn lemma_decode_encode(v: Seq<u8>, rest: Seq<u8>) {
        lemma_decode_encode_bytes(v, rest);
    }

    fn serialize(&self, out: &mut Vec<u8>) {
        serialize_bytes(self.0.as_slice(), out);
    }

    fn deserialize(bytes: &[u8], pos: usize) -> (res: Result<(Facet, usize), CodecError>) {
        match deserialize_bytes(bytes, pos) {
            Ok((encoded, next)) => Ok((Facet(encoded), next)),
            Err(e) => Err(e),
        }
    }
}

} // verus!
