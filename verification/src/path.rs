//! JSON Pointers: parsing, escaping and taking apart.

use vstd::prelude::*;
use crate::errors::{Error, ErrorView};
use crate::text::{
    chars_of, decimal, is_digit, lemma_decimal_digits, lemma_replace_char_step,
    lemma_replace_pair_absent, lemma_replace_pair_hit, lemma_replace_pair_pass, replace_char,
    replace_char_in, replace_pair, replace_pair_in, string_of,
};

verus! {

/// A segment as it stands in a pointer's text, decoded: first each `~1`
/// becomes `/`, then each `~0` becomes `~`.
pub open spec fn decode_segment(s: Seq<char>) -> Seq<char> {
    replace_pair(replace_pair(s, '~', '1', '/'), '~', '0', '~')
}

/// A segment encoded for a pointer's text: first each `~` becomes `~0`, then
/// each `/` becomes `~1`.
pub open spec fn encode_segment(s: Seq<char>) -> Seq<char> {
    replace_char(replace_char(s, '~', '~', '0'), '/', '~', '1')
}

/// The pieces of `s` between its slashes. There is always at least one
/// piece; a slash at either end, or two in a row, give an empty piece.
pub open spec fn split_slash(s: Seq<char>) -> Seq<Seq<char>>
    decreases s.len(),
{
    if s.len() == 0 {
        seq![Seq::<char>::empty()]
    } else {
        let init = split_slash(s.drop_last());
        if s.last() == '/' {
            init.push(Seq::<char>::empty())
        } else {
            init.update(init.len() - 1, init.last().push(s.last()))
        }
    }
}

/// The decoded segments that `s` stands for when it follows a slash.
pub open spec fn segments_of(s: Seq<char>) -> Seq<Seq<char>> {
    split_slash(s).map_values(|piece: Seq<char>| decode_segment(piece))
}

/// The pointer that `text` denotes: the root for the empty text, the decoded
/// segments after the leading slash otherwise, and `InvalidPath` with the
/// whole text where it starts with anything but a slash.
pub open spec fn parse_path(text: Seq<char>) -> Result<Seq<Seq<char>>, ErrorView> {
    if text.len() == 0 {
        Ok(Seq::empty())
    } else if text[0] != '/' {
        Err(ErrorView::InvalidPath(text))
    } else {
        Ok(segments_of(text.skip(1)))
    }
}

/// The text of a pointer: each segment encoded and preceded by a slash.
pub open spec fn path_text(path: Seq<Seq<char>>) -> Seq<char>
    decreases path.len(),
{
    if path.len() == 0 {
        Seq::empty()
    } else {
        path_text(path.drop_last()) + seq!['/'] + encode_segment(path.last())
    }
}

/// The character sequences of a sequence of strings.
pub open spec fn strings_view(v: Seq<String>) -> Seq<Seq<char>> {
    Seq::new(v.len(), |i: int| v[i]@)
}

/// A location in a JSON document: a sequence of decoded segments, each the
/// key of an object member or the index of an array element.
#[derive(Debug)]
pub struct Path {
    parts: Vec<String>,
}

impl View for Path {
    type V = Seq<Seq<char>>;

    closed spec fn view(&self) -> Seq<Seq<char>> {
        strings_view(self.parts@)
    }
}

/// Splits `chars[from..]` at its slashes and decodes each piece.
fn split_decode(chars: &Vec<char>, from: usize) -> (parts: Vec<String>)
    requires
        from <= chars@.len(),
    ensures
        strings_view(parts@) == segments_of(chars@.skip(from as int)),
{
    let mut parts: Vec<String> = Vec::new();
    let mut start: usize = from;
    let mut i: usize = from;
    let ghost mut raw: Seq<Seq<char>> = Seq::empty();
    proof {
        let none = chars@.subrange(from as int, from as int);
        assert(none =~= Seq::<char>::empty());
        assert(raw.push(none) =~= seq![Seq::<char>::empty()]);
    }
    while i < chars.len()
        invariant
            from <= start <= i <= chars@.len(),
            raw.push(chars@.subrange(start as int, i as int)) == split_slash(
                chars@.subrange(from as int, i as int),
            ),
            parts@.len() == raw.len(),
            forall|j: int| 0 <= j < raw.len() ==> (#[trigger] parts@[j])@ == decode_segment(raw[j]),
        decreases chars@.len() - i,
    {
        let ghost sofar = chars@.subrange(from as int, i as int);
        let ghost upto = chars@.subrange(from as int, i + 1);
        let ghost cur = chars@.subrange(start as int, i as int);
        proof {
            assert(upto.drop_last() =~= sofar);
            assert(upto.last() == chars@[i as int]);
            assert(split_slash(sofar).last() == cur);
            assert(split_slash(sofar).len() == raw.len() + 1);
        }
        if chars[i] == '/' {
            let piece = decode_piece(chars, start, i);
            parts.push(piece);
            proof {
                raw = raw.push(cur);
                assert(chars@.subrange(i + 1, i + 1) =~= Seq::<char>::empty());
                assert(raw.push(chars@.subrange(i + 1, i + 1)) =~= split_slash(upto));
            }
            start = i + 1;
        } else {
            proof {
                assert(chars@.subrange(start as int, i + 1) =~= cur.push(chars@[i as int]));
                assert(raw.push(chars@.subrange(start as int, i + 1)) =~= split_slash(upto));
            }
        }
        i += 1;
    }
    let piece = decode_piece(chars, start, i);
    parts.push(piece);
    proof {
        assert(chars@.subrange(from as int, i as int) =~= chars@.skip(from as int));
        let pieces = split_slash(chars@.skip(from as int));
        assert(pieces == raw.push(chars@.subrange(start as int, i as int)));
        assert forall|j: int| 0 <= j < pieces.len() implies strings_view(parts@)[j]
            == segments_of(chars@.skip(from as int))[j] by {
            assert(parts@[j]@ == decode_segment(pieces[j]));
        }
        assert(strings_view(parts@) =~= segments_of(chars@.skip(from as int)));
    }
    parts
}

/// The decoded form of the piece `chars[from..to]`.
fn decode_piece(chars: &Vec<char>, from: usize, to: usize) -> (piece: String)
    requires
        from <= to <= chars@.len(),
    ensures
        piece@ == decode_segment(chars@.subrange(from as int, to as int)),
{
    let mut raw: Vec<char> = Vec::new();
    let mut i: usize = from;
    while i < to
        invariant
            from <= i <= to <= chars@.len(),
            raw@ == chars@.subrange(from as int, i as int),
        decreases to - i,
    {
        raw.push(chars[i]);
        i += 1;
    }
    let slashes = replace_pair_in(&raw, '~', '1', '/');
    let decoded = replace_pair_in(&slashes, '~', '0', '~');
    let piece = string_of(&decoded, 0, decoded.len());
    proof {
        assert(decoded@.subrange(0, decoded@.len() as int) =~= decoded@);
    }
    piece
}

impl Path {
    /// Parses the text of a JSON Pointer. The text of the pointer that
    /// comes out is the text that went in, where every `~` in it is followed
    /// by `0` or `1`.
    pub fn new(s: &str) -> (parsed: Result<Path, Error>)
        ensures
            match parsed {
                Ok(path) => parse_path(s@) == Ok::<Seq<Seq<char>>, ErrorView>(path@),
                Err(e) => parse_path(s@) == Err::<Seq<Seq<char>>, ErrorView>(e@),
            },
            well_escaped(s@) ==> (parsed matches Ok(path) ==> path_text(path@) == s@),
    {
        proof {
            if well_escaped(s@) && parse_path(s@) is Ok {
                lemma_text_of_parsed(s@);
            }
        }
        let chars = chars_of(s);
        if chars.len() == 0 {
            return Ok(Path::root());
        }
        if chars[0] != '/' {
            return Err(Error::InvalidPath(s.to_owned()));
        }
        Ok(Path { parts: split_decode(&chars, 1) })
    }

    /// This pointer followed by the segments that `s` stands for: `s` is read
    /// as the text after a slash, so a slash in it starts a further segment
    /// and `~0`, `~1` in it are decoded.
    pub fn join(self, s: &str) -> (joined: Path)
        ensures
            joined@ == self@ + segments_of(s@),
    {
        let chars = chars_of(s);
        let mut more = split_decode(&chars, 0);
        let mut parts = self.parts;
        let ghost before = parts@;
        let ghost added = more@;
        parts.append(&mut more);
        proof {
            assert(chars@.skip(0) =~= s@);
            assert(strings_view(parts@) =~= strings_view(before) + strings_view(added));
        }
        Path { parts }
    }

    /// Decodes one segment of a pointer's text.
    pub fn escape(s: &str) -> (decoded: String)
        ensures
            decoded@ == decode_segment(s@),
    {
        let chars = chars_of(s);
        let piece = decode_piece(&chars, 0, chars.len());
        proof {
            assert(chars@.subrange(0, chars@.len() as int) =~= s@);
        }
        piece
    }

    /// The pointer to the whole document: no segments.
    pub fn root() -> (path: Path)
        ensures
            path@ == Seq::<Seq<char>>::empty(),
    {
        let path = Path { parts: Vec::new() };
        proof {
            assert(path@ =~= Seq::<Seq<char>>::empty());
        }
        path
    }

    /// Whether this is the root pointer.
    pub fn is_empty(&self) -> (empty: bool)
        ensures
            empty == (self@.len() == 0),
    {
        self.parts.len() == 0
    }

    /// The number of segments.
    pub fn len(&self) -> (n: usize)
        ensures
            n == self@.len(),
    {
        self.parts.len()
    }

    /// The segments, in order.
    pub fn segments(&self) -> (parts: Vec<String>)
        ensures
            strings_view(parts@) == self@,
    {
        self.clone().parts
    }

    /// Detaches the first segment: `None` for the root, else the first
    /// segment and the pointer made of the others.
    pub fn split_head(self) -> (parts: Option<(String, Path)>)
        ensures
            match parts {
                None => self@.len() == 0,
                Some((head, tail)) => self@.len() > 0 && head@ == self@[0] && tail@
                    == self@.skip(1),
            },
    {
        let mut parts = self.parts;
        if parts.len() == 0 {
            None
        } else {
            let head = parts.remove(0);
            let tail = Path { parts };
            proof {
                assert(tail@ =~= self@.skip(1));
            }
            Some((head, tail))
        }
    }

    /// The text of this pointer.
    pub fn to_escaped(&self) -> (text: String)
        ensures
            text@ == path_text(self@),
    {
        let mut out: Vec<char> = Vec::new();
        let mut i: usize = 0;
        while i < self.parts.len()
            invariant
                i <= self.parts@.len(),
                out@ == path_text(self@.take(i as int)),
            decreases self.parts@.len() - i,
        {
            let chars = chars_of(self.parts[i].as_str());
            let tildes = replace_char_in(&chars, '~', '~', '0');
            let mut encoded = replace_char_in(&tildes, '/', '~', '1');
            let ghost before = out@;
            let ghost enc = encoded@;
            out.push('/');
            out.append(&mut encoded);
            proof {
                let upto = self@.take(i + 1);
                assert(upto.drop_last() =~= self@.take(i as int));
                assert(upto.last() == self@[i as int]);
                assert(out@ =~= before + seq!['/'] + enc);
            }
            i += 1;
        }
        proof {
            assert(self@.take(i as int) =~= self@);
        }
        let text = string_of(&out, 0, out.len());
        proof {
            assert(out@.subrange(0, out@.len() as int) =~= out@);
        }
        text
    }
}

impl Clone for Path {
    fn clone(&self) -> (copy: Self)
        ensures
            copy@ == self@,
    {
        let mut parts: Vec<String> = Vec::new();
        let mut i: usize = 0;
        while i < self.parts.len()
            invariant
                i <= self.parts@.len(),
                parts@.len() == i,
                forall|j: int| 0 <= j < i ==> (#[trigger] parts@[j])@ == self.parts@[j]@,
            decreases self.parts@.len() - i,
        {
            parts.push(self.parts[i].clone());
            i += 1;
        }
        proof {
            assert(strings_view(parts@) =~= strings_view(self.parts@));
        }
        Path { parts }
    }
}

impl PartialEq for Path {
    fn eq(&self, other: &Self) -> (same: bool) {
        if self.parts.len() != other.parts.len() {
            proof {
                assert(self@.len() != other@.len());
            }
            return false;
        }
        let mut i: usize = 0;
        while i < self.parts.len()
            invariant
                i <= self.parts@.len(),
                self.parts@.len() == other.parts@.len(),
                self@.take(i as int) == other@.take(i as int),
            decreases self.parts@.len() - i,
        {
            if self.parts[i] != other.parts[i] {
                proof {
                    assert(self@[i as int] != other@[i as int]);
                }
                return false;
            }
            proof {
                assert(self@.take(i + 1) =~= self@.take(i as int).push(self@[i as int]));
                assert(other@.take(i + 1) =~= other@.take(i as int).push(other@[i as int]));
            }
            i += 1;
        }
        proof {
            assert(self@.take(i as int) =~= self@);
            assert(other@.take(i as int) =~= other@);
        }
        true
    }
}

impl vstd::std_specs::cmp::PartialEqSpecImpl for Path {
    open spec fn obeys_eq_spec() -> bool {
        true
    }

    open spec fn eq_spec(&self, other: &Self) -> bool {
        self@ == other@
    }
}

impl Eq for Path {

}

/// Whether every `~` in `s` is followed by `0` or `1`, as in the text of a
/// pointer that escapes its segments.
pub open spec fn well_escaped(s: Seq<char>) -> bool {
    forall|i: int|
        0 <= i < s.len() && (#[trigger] s[i]) == '~' ==> i + 1 < s.len() && (s[i + 1] == '0' || s[i + 1]
            == '1')
}

/// Whether every `~` in `s` but a last one is followed by `0` or `1`.
spec fn escaped_so_far(s: Seq<char>) -> bool {
    forall|i: int| 0 <= i < s.len() - 1 && (#[trigger] s[i]) == '~' ==> (s[i + 1] == '0' || s[i + 1] == '1')
}

/// Whether `s` holds no slash.
pub open spec fn slash_free(s: Seq<char>) -> bool {
    forall|i: int| 0 <= i < s.len() ==> s[i] != '/'
}

/// The pieces, each preceded by a slash.
pub open spec fn slash_join(pieces: Seq<Seq<char>>) -> Seq<char>
    decreases pieces.len(),
{
    if pieces.len() == 0 {
        Seq::empty()
    } else {
        slash_join(pieces.drop_last()) + seq!['/'] + pieces.last()
    }
}

/// Decoding undoes encoding, for every segment.
pub proof fn lemma_decode_encode(s: Seq<char>)
    ensures
        decode_segment(encode_segment(s)) == s,
    decreases s.len(),
{
    if s.len() == 0 {
        assert(encode_segment(s) =~= s);
        assert(decode_segment(s) =~= s);
    } else {
        let x = s[0];
        let rest = s.skip(1);
        lemma_decode_encode(rest);
        assert(seq![x] + rest =~= s);
        let c = replace_char(rest, '~', '~', '0');
        let d = replace_char(c, '/', '~', '1');
        let a = replace_pair(d, '~', '1', '/');
        let b = replace_pair(a, '~', '0', '~');
        lemma_replace_char_step(x, rest, '~', '~', '0');
        if x == '~' {
            assert(seq!['~', '0'] + c =~= seq!['~'] + (seq!['0'] + c));
            lemma_replace_char_step('~', seq!['0'] + c, '/', '~', '1');
            lemma_replace_char_step('0', c, '/', '~', '1');
            assert(encode_segment(s) =~= seq!['~'] + (seq!['0'] + d));
            lemma_replace_pair_pass('~', seq!['0'] + d, '~', '1', '/');
            lemma_replace_pair_pass('0', d, '~', '1', '/');
            assert(seq!['~'] + (seq!['0'] + a) =~= seq!['~', '0'] + a);
            lemma_replace_pair_hit(a, '~', '0', '~');
            assert(decode_segment(encode_segment(s)) =~= seq!['~'] + b);
        } else if x == '/' {
            lemma_replace_char_step('/', c, '/', '~', '1');
            assert(encode_segment(s) =~= seq!['~', '1'] + d);
            lemma_replace_pair_hit(d, '~', '1', '/');
            lemma_replace_pair_pass('/', a, '~', '0', '~');
            assert(decode_segment(encode_segment(s)) =~= seq!['/'] + b);
        } else {
            lemma_replace_char_step(x, c, '/', '~', '1');
            assert(encode_segment(s) =~= seq![x] + d);
            lemma_replace_pair_pass(x, d, '~', '1', '/');
            lemma_replace_pair_pass(x, a, '~', '0', '~');
            assert(decode_segment(encode_segment(s)) =~= seq![x] + b);
        }
    }
}

/// Encoding undoes decoding, for a piece of text without slash in which
/// every `~` starts an escape.
pub proof fn lemma_encode_decode(s: Seq<char>)
    requires
        well_escaped(s),
        slash_free(s),
    ensures
        encode_segment(decode_segment(s)) == s,
    decreases s.len(),
{
    if s.len() == 0 {
        assert(decode_segment(s) =~= s);
        assert(encode_segment(s) =~= s);
    } else if s[0] == '~' {
        let y = s[1];
        let rest = s.skip(2);
        assert(seq!['~', y] + rest =~= s);
        assert(well_escaped(rest)) by {
            assert forall|i: int| 0 <= i < rest.len() && (#[trigger] rest[i]) == '~' implies i + 1 < rest.len()
                && (rest[i + 1] == '0' || rest[i + 1] == '1') by {
                assert(s[i + 2] == '~');
            }
        }
        assert(slash_free(rest)) by {
            assert forall|i: int| 0 <= i < rest.len() implies rest[i] != '/' by {
                assert(s[i + 2] != '/');
            }
        }
        lemma_encode_decode(rest);
        let a = replace_pair(rest, '~', '1', '/');
        let b = replace_pair(a, '~', '0', '~');
        let c = replace_char(b, '~', '~', '0');
        let d = replace_char(c, '/', '~', '1');
        if y == '1' {
            lemma_replace_pair_hit(rest, '~', '1', '/');
            lemma_replace_pair_pass('/', a, '~', '0', '~');
            lemma_replace_char_step('/', b, '~', '~', '0');
            lemma_replace_char_step('/', c, '/', '~', '1');
            assert(encode_segment(decode_segment(s)) =~= seq!['~', '1'] + d);
        } else {
            assert(seq!['~', '0'] + rest =~= seq!['~'] + (seq!['0'] + rest));
            lemma_replace_pair_pass('~', seq!['0'] + rest, '~', '1', '/');
            lemma_replace_pair_pass('0', rest, '~', '1', '/');
            assert(seq!['~'] + (seq!['0'] + a) =~= seq!['~', '0'] + a);
            lemma_replace_pair_hit(a, '~', '0', '~');
            lemma_replace_char_step('~', b, '~', '~', '0');
            assert(seq!['~', '0'] + c =~= seq!['~'] + (seq!['0'] + c));
            lemma_replace_char_step('~', seq!['0'] + c, '/', '~', '1');
            lemma_replace_char_step('0', c, '/', '~', '1');
            assert(encode_segment(decode_segment(s)) =~= seq!['~', '0'] + d);
        }
    } else {
        let x = s[0];
        let rest = s.skip(1);
        assert(seq![x] + rest =~= s);
        assert(well_escaped(rest)) by {
            assert forall|i: int| 0 <= i < rest.len() && (#[trigger] rest[i]) == '~' implies i + 1 < rest.len()
                && (rest[i + 1] == '0' || rest[i + 1] == '1') by {
                assert(s[i + 1] == '~');
            }
        }
        assert(slash_free(rest)) by {
            assert forall|i: int| 0 <= i < rest.len() implies rest[i] != '/' by {
                assert(s[i + 1] != '/');
            }
        }
        lemma_encode_decode(rest);
        let a = replace_pair(rest, '~', '1', '/');
        let b = replace_pair(a, '~', '0', '~');
        let c = replace_char(b, '~', '~', '0');
        let d = replace_char(c, '/', '~', '1');
        lemma_replace_pair_pass(x, rest, '~', '1', '/');
        lemma_replace_pair_pass(x, a, '~', '0', '~');
        lemma_replace_char_step(x, b, '~', '~', '0');
        lemma_replace_char_step(x, c, '/', '~', '1');
        assert(encode_segment(decode_segment(s)) =~= seq![x] + d);
    }
}

/// The pieces of a text, each preceded by a slash, make up the text
/// preceded by a slash.
pub proof fn lemma_slash_join_split(s: Seq<char>)
    ensures
        split_slash(s).len() > 0,
        slash_join(split_slash(s)) == seq!['/'] + s,
    decreases s.len(),
{
    if s.len() == 0 {
        let pieces = split_slash(s);
        assert(pieces.len() == 1);
        assert(pieces.drop_last() =~= Seq::<Seq<char>>::empty());
        assert(slash_join(pieces.drop_last()) =~= Seq::<char>::empty());
        assert(slash_join(pieces) == slash_join(pieces.drop_last()) + seq!['/'] + pieces.last());
        assert(slash_join(pieces) =~= seq!['/'] + s);
    } else {
        let init = split_slash(s.drop_last());
        lemma_slash_join_split(s.drop_last());
        let pieces = split_slash(s);
        if s.last() == '/' {
            assert(pieces.drop_last() =~= init);
            assert(slash_join(pieces) =~= seq!['/'] + s);
        } else {
            assert(pieces.drop_last() =~= init.drop_last());
            assert(slash_join(pieces) =~= slash_join(init).push(s.last()));
            assert(slash_join(pieces) =~= seq!['/'] + s);
        }
    }
}

/// In a text where every `~` but a last one starts an escape, every piece
/// but the last is well escaped, no piece holds a slash, and the last piece
/// is the end of the text.
proof fn lemma_pieces_escaped(s: Seq<char>)
    requires
        escaped_so_far(s),
    ensures
        split_slash(s).len() > 0,
        forall|k: int| 0 <= k < split_slash(s).len() ==> slash_free(#[trigger] split_slash(s)[k]),
        forall|k: int|
            0 <= k < split_slash(s).len() - 1 ==> well_escaped(#[trigger] split_slash(s)[k]),
        escaped_so_far(split_slash(s).last()),
        split_slash(s).last().len() <= s.len(),
        forall|i: int|
            0 <= i < split_slash(s).last().len() ==> split_slash(s).last()[i] == s[s.len()
                - split_slash(s).last().len() + i],
    decreases s.len(),
{
    if s.len() > 0 {
        let before = s.drop_last();
        assert(escaped_so_far(before)) by {
            assert forall|i: int| 0 <= i < before.len() - 1 && (#[trigger] before[i]) == '~' implies (before[i
                + 1] == '0' || before[i + 1] == '1') by {
                assert(s[i] == '~');
            }
        }
        lemma_pieces_escaped(before);
        let init = split_slash(before);
        let last = init.last();
        let pieces = split_slash(s);
        if s.last() == '/' {
            assert(well_escaped(last)) by {
                assert forall|i: int| 0 <= i < last.len() && (#[trigger] last[i]) == '~' implies i + 1
                    < last.len() && (last[i + 1] == '0' || last[i + 1] == '1') by {
                    let g = before.len() - last.len() + i;
                    assert(s[g] == '~');
                    if i + 1 == last.len() {
                        assert(s[g + 1] == '/');
                    }
                }
            }
            assert forall|k: int| 0 <= k < pieces.len() - 1 implies well_escaped(
                #[trigger] pieces[k],
            ) by {
                if k < init.len() - 1 {
                    assert(pieces[k] == init[k]);
                }
            }
            assert forall|k: int| 0 <= k < pieces.len() implies slash_free(#[trigger] pieces[k]) by {
                if k < init.len() {
                    assert(pieces[k] == init[k]);
                }
            }
        } else {
            let grown = last.push(s.last());
            assert(pieces.last() == grown);
            assert forall|k: int| 0 <= k < pieces.len() - 1 implies well_escaped(
                #[trigger] pieces[k],
            ) by {
                assert(pieces[k] == init[k]);
            }
            assert forall|k: int| 0 <= k < pieces.len() implies slash_free(#[trigger] pieces[k]) by {
                if k < init.len() - 1 {
                    assert(pieces[k] == init[k]);
                }
            }
            assert forall|i: int| 0 <= i < grown.len() implies grown[i] == s[s.len() - grown.len()
                + i] by {
                if i < last.len() {
                    assert(last[i] == before[before.len() - last.len() + i]);
                }
            }
            assert(escaped_so_far(grown)) by {
                assert forall|i: int| 0 <= i < grown.len() - 1 && (#[trigger] grown[i]) == '~' implies (grown[i
                    + 1] == '0' || grown[i + 1] == '1') by {
                    let g = s.len() - grown.len() + i;
                    assert(s[g] == '~');
                    assert(grown[i + 1] == s[g + 1]);
                }
            }
        }
    }
}

/// The text of the encoded forms of decoded pieces is that of the pieces,
/// where encoding undoes decoding on each.
proof fn lemma_text_of_decoded(pieces: Seq<Seq<char>>)
    requires
        forall|k: int|
            0 <= k < pieces.len() ==> encode_segment(decode_segment(#[trigger] pieces[k]))
                == pieces[k],
    ensures
        path_text(pieces.map_values(|piece: Seq<char>| decode_segment(piece))) == slash_join(
            pieces,
        ),
    decreases pieces.len(),
{
    let decoded = pieces.map_values(|piece: Seq<char>| decode_segment(piece));
    if pieces.len() > 0 {
        lemma_text_of_decoded(pieces.drop_last());
        assert(decoded.drop_last() =~= pieces.drop_last().map_values(
            |piece: Seq<char>| decode_segment(piece),
        ));
        assert(decoded.last() == decode_segment(pieces.last()));
    }
}

/// The text of a parsed pointer is the text that was parsed, where every
/// `~` in it is followed by `0` or `1`.
pub proof fn lemma_text_of_parsed(text: Seq<char>)
    requires
        parse_path(text) is Ok,
        well_escaped(text),
    ensures
        path_text(parse_path(text)->Ok_0) == text,
{
    if text.len() > 0 {
        let body = text.skip(1);
        assert(escaped_so_far(body)) by {
            assert forall|i: int| 0 <= i < body.len() - 1 && (#[trigger] body[i]) == '~' implies (body[i + 1]
                == '0' || body[i + 1] == '1') by {
                assert(text[i + 1] == '~');
            }
        }
        lemma_pieces_escaped(body);
        let pieces = split_slash(body);
        let last = pieces.last();
        assert(well_escaped(last)) by {
            assert forall|i: int| 0 <= i < last.len() && (#[trigger] last[i]) == '~' implies i + 1 < last.len()
                && (last[i + 1] == '0' || last[i + 1] == '1') by {
                let g = body.len() - last.len() + i;
                assert(text[g + 1] == '~');
                if i + 1 < last.len() {
                    assert(last[i + 1] == body[g + 1]);
                }
            }
        }
        assert forall|k: int| 0 <= k < pieces.len() implies encode_segment(
            decode_segment(#[trigger] pieces[k]),
        ) == pieces[k] by {
            if k < pieces.len() - 1 {
                assert(well_escaped(pieces[k]));
            }
            lemma_encode_decode(pieces[k]);
        }
        lemma_text_of_decoded(pieces);
        lemma_slash_join_split(body);
        assert(seq!['/'] + body =~= text);
    }
}

/// A text without slash is one piece.
pub proof fn lemma_split_slash_free(s: Seq<char>)
    requires
        slash_free(s),
    ensures
        split_slash(s) == seq![s],
    decreases s.len(),
{
    if s.len() == 0 {
        assert(s =~= Seq::<char>::empty());
    } else {
        lemma_split_slash_free(s.drop_last());
        assert(s.drop_last().push(s.last()) =~= s);
        assert(split_slash(s) =~= seq![s]);
    }
}

/// Whether `key` stands for itself where a pointer is extended by it: it
/// holds no slash and decoding leaves it as it is.
pub open spec fn key_is_plain(key: Seq<char>) -> bool {
    segments_of(key) == seq![key]
}

/// A text with neither slash nor `~` stands for itself.
pub proof fn lemma_plain_text(s: Seq<char>)
    requires
        forall|i: int| 0 <= i < s.len() ==> s[i] != '/' && s[i] != '~',
    ensures
        key_is_plain(s),
{
    lemma_split_slash_free(s);
    lemma_replace_pair_absent(s, '~', '1', '/');
    lemma_replace_pair_absent(s, '~', '0', '~');
    assert(segments_of(s) =~= seq![s]);
}

/// The numeral of an index stands for itself.
pub proof fn lemma_decimal_is_plain(n: nat)
    ensures
        key_is_plain(decimal(n)),
{
    lemma_decimal_digits(n);
    let s = decimal(n);
    assert forall|i: int| 0 <= i < s.len() implies s[i] != '/' && s[i] != '~' by {
        assert(is_digit(s[i]));
    }
    lemma_plain_text(s);
}

/// Text after which further text without slash follows has the pieces of
/// the first, the last of them extended by the second.
proof fn lemma_split_append(s: Seq<char>, t: Seq<char>)
    requires
        slash_free(t),
    ensures
        split_slash(s).len() > 0,
        split_slash(s + t) == split_slash(s).update(
            split_slash(s).len() - 1,
            split_slash(s).last() + t,
        ),
    decreases t.len(),
{
    lemma_slash_join_split(s);
    let pieces = split_slash(s);
    if t.len() == 0 {
        assert(s + t =~= s);
        assert(pieces.last() + t =~= pieces.last());
        assert(pieces.update(pieces.len() - 1, pieces.last()) =~= pieces);
    } else {
        let init = t.drop_last();
        assert(slash_free(init)) by {
            assert forall|i: int| 0 <= i < init.len() implies init[i] != '/' by {
                assert(t[i] != '/');
            }
        }
        lemma_split_append(s, init);
        let whole = s + t;
        assert(whole.drop_last() =~= s + init);
        assert(whole.last() == t.last());
        assert(t.last() != '/');
        assert((pieces.last() + init).push(t.last()) =~= pieces.last() + t);
        assert(split_slash(whole) =~= pieces.update(pieces.len() - 1, pieces.last() + t));
    }
}

/// Pieces without slash, each preceded by a slash, are the pieces of the
/// text that they make up after its first slash.
proof fn lemma_split_of_join(pieces: Seq<Seq<char>>)
    requires
        pieces.len() > 0,
        forall|k: int| 0 <= k < pieces.len() ==> slash_free(#[trigger] pieces[k]),
    ensures
        slash_join(pieces).len() > 0,
        slash_join(pieces)[0] == '/',
        split_slash(slash_join(pieces).skip(1)) == pieces,
    decreases pieces.len(),
{
    let init = pieces.drop_last();
    let last = pieces.last();
    assert(slash_free(last));
    if init.len() == 0 {
        assert(slash_join(init) =~= Seq::<char>::empty());
        assert(slash_join(pieces).skip(1) =~= last);
        lemma_split_slash_free(last);
        assert(pieces =~= seq![last]);
    } else {
        assert forall|k: int| 0 <= k < init.len() implies slash_free(#[trigger] init[k]) by {
            assert(init[k] == pieces[k]);
        }
        lemma_split_of_join(init);
        let body = slash_join(init).skip(1);
        let slashed = body.push('/');
        assert(slashed.drop_last() =~= body);
        assert(split_slash(slashed) == init.push(Seq::<char>::empty()));
        lemma_split_append(slashed, last);
        assert(slash_join(pieces).skip(1) =~= slashed + last);
        assert(Seq::<char>::empty() + last =~= last);
        assert(init.push(Seq::<char>::empty()).update(init.len() as int, last) =~= pieces);
    }
}

/// An encoded segment holds no slash.
proof fn lemma_encoded_slash_free(s: Seq<char>)
    ensures
        slash_free(encode_segment(s)),
{
    lemma_replaced_char_absent(replace_char(s, '~', '~', '0'));
}

/// Where every slash is replaced by `~1` no slash is left.
proof fn lemma_replaced_char_absent(s: Seq<char>)
    ensures
        slash_free(replace_char(s, '/', '~', '1')),
    decreases s.len(),
{
    if s.len() > 0 {
        lemma_replaced_char_absent(s.skip(1));
    }
}

/// The text of a pointer is its encoded segments, each preceded by a
/// slash.
proof fn lemma_text_is_join(path: Seq<Seq<char>>)
    ensures
        path_text(path) == slash_join(path.map_values(|s: Seq<char>| encode_segment(s))),
    decreases path.len(),
{
    let encoded = path.map_values(|s: Seq<char>| encode_segment(s));
    if path.len() > 0 {
        lemma_text_is_join(path.drop_last());
        assert(encoded.drop_last() =~= path.drop_last().map_values(
            |s: Seq<char>| encode_segment(s),
        ));
        assert(encoded.last() == encode_segment(path.last()));
    }
}

/// Parsing the text of a pointer gives the pointer.
pub proof fn lemma_parse_of_text(path: Seq<Seq<char>>)
    ensures
        parse_path(path_text(path)) == Ok::<Seq<Seq<char>>, ErrorView>(path),
{
    lemma_text_is_join(path);
    let encoded = path.map_values(|s: Seq<char>| encode_segment(s));
    if path.len() == 0 {
        assert(path =~= Seq::<Seq<char>>::empty());
    } else {
        assert forall|k: int| 0 <= k < encoded.len() implies slash_free(#[trigger] encoded[k]) by {
            lemma_encoded_slash_free(path[k]);
        }
        lemma_split_of_join(encoded);
        let body = path_text(path).skip(1);
        assert forall|k: int| 0 <= k < path.len() implies #[trigger] segments_of(body)[k]
            == path[k] by {
            lemma_decode_encode(path[k]);
            assert(encoded[k] == encode_segment(path[k]));
        }
        assert(segments_of(body) =~= path);
    }
}

} // verus!
