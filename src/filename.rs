//! Entry names: their text, their length-prefixed encoding, and the
//! backslash-joined form built from a path's components.
use crate::error::ArchiveError;
use crate::le::{get_u16, lemma_u16_at_image, put_u16, u16_at};
use vstd::bytes::spec_u16_to_le_bytes;
use vstd::prelude::*;
use vstd::slice::slice_to_vec;
use vstd::string::{StrSliceExecFns, StringExecFns};
use vstd::utf8::{decode_utf8, encode_utf8, encode_utf8_decode_utf8, encode_utf8_valid_utf8, valid_utf8};

verus! {

/// The longest name, in bytes, that the 16-bit length prefix can announce.
pub const MAX_NAME_BYTES: usize = 65535;

/// The internal path of one entry.
pub struct Filename {
    pub filename: String,
}

impl View for Filename {
    type V = Seq<char>;

    open spec fn view(&self) -> Seq<char> {
        self.filename@
    }
}

impl Clone for Filename {
    fn clone(&self) -> (r: Filename)
        ensures
            r@ == self@,
    {
        Filename { filename: self.filename.clone() }
    }
}

/// A name's bytes: its UTF-8 encoding.
pub open spec fn name_bytes(s: Seq<char>) -> Seq<u8> {
    encode_utf8(s)
}

/// A name that its length prefix can describe.
pub open spec fn storable(s: Seq<char>) -> bool {
    name_bytes(s).len() <= 65535
}

/// The encoding of a name: its byte length as a little-endian `u16`, then
/// its bytes.
pub open spec fn name_image(s: Seq<char>) -> Seq<u8> {
    spec_u16_to_le_bytes(name_bytes(s).len() as u16) + name_bytes(s)
}

/// What decoding a name at `pos` gives: the name and the position after it.
pub open spec fn parse_name(data: Seq<u8>, pos: int) -> Result<(Seq<char>, int), ArchiveError> {
    if pos + 2 > data.len() {
        Err(ArchiveError::Truncated)
    } else {
        let len = u16_at(data, pos) as int;
        let body = data.subrange(pos + 2, pos + 2 + len);
        if pos + 2 + len > data.len() {
            Err(ArchiveError::Truncated)
        } else if !valid_utf8(body) {
            Err(ArchiveError::InvalidUtf8)
        } else {
            Ok((decode_utf8(body), pos + 2 + len))
        }
    }
}

/// The parts joined with a backslash between neighbours.
pub open spec fn join_components(parts: Seq<Seq<char>>) -> Seq<char>
    decreases parts.len(),
{
    if parts.len() == 0 {
        Seq::empty()
    } else if parts.len() == 1 {
        parts[0]
    } else {
        join_components(parts.drop_last()) + seq!['\\'] + parts.last()
    }
}

/// The pieces of `s` between backslashes, in order; a string without a
/// backslash is one piece.
pub open spec fn split_components(s: Seq<char>) -> Seq<Seq<char>>
    decreases s.len(),
{
    if s.len() == 0 {
        seq![Seq::empty()]
    } else {
        let pre = split_components(s.drop_last());
        if s.last() == '\\' {
            pre.push(Seq::empty())
        } else {
            pre.update(pre.len() - 1, pre.last().push(s.last()))
        }
    }
}

/// `split_components` always gives at least one piece.
proof fn lemma_split_nonempty(s: Seq<char>)
    ensures
        split_components(s).len() >= 1,
    decreases s.len(),
{
    if s.len() > 0 {
        lemma_split_nonempty(s.drop_last());
    }
}

/// Appending text without a backslash extends the last piece.
proof fn lemma_split_append_plain(s: Seq<char>, t: Seq<char>)
    requires
        forall|i: int| 0 <= i < t.len() ==> t[i] != '\\',
    ensures
        split_components(s).len() >= 1,
        split_components(s + t) == split_components(s).update(
            split_components(s).len() - 1,
            split_components(s).last() + t,
        ),
    decreases t.len(),
{
    lemma_split_nonempty(s);
    if t.len() == 0 {
        assert(s + t =~= s);
        assert(split_components(s).last() + t =~= split_components(s).last());
        assert(split_components(s).update(split_components(s).len() - 1, split_components(s).last())
            =~= split_components(s));
    } else {
        let u = t.drop_last();
        lemma_split_append_plain(s, u);
        assert((s + t).drop_last() =~= s + u);
        assert((s + t).last() == t.last());
        let pre = split_components(s);
        assert(split_components(s + t) =~= pre.update(pre.len() - 1, pre.last() + t)) by {
            assert((pre.last() + u).push(t.last()) =~= pre.last() + t);
        }
    }
}

/// A name made from path components splits back into those components,
/// where there is at least one and none holds a backslash.
pub proof fn lemma_split_join(parts: Seq<Seq<char>>)
    requires
        parts.len() >= 1,
        forall|j: int, i: int| 0 <= j < parts.len() && 0 <= i < parts[j].len() ==> #[trigger] parts[j][i] != '\\',
    ensures
        split_components(join_components(parts)) == parts,
    decreases parts.len(),
{
    if parts.len() == 1 {
        lemma_split_append_plain(Seq::empty(), parts[0]);
        assert(Seq::<char>::empty() + parts[0] =~= parts[0]);
        assert(split_components(Seq::<char>::empty()) =~= seq![Seq::<char>::empty()]);
        assert(split_components(parts[0]) =~= parts);
    } else {
        let rest = parts.drop_last();
        let last = parts.last();
        lemma_split_join(rest);
        let head = join_components(rest) + seq!['\\'];
        assert(head.drop_last() =~= join_components(rest));
        assert(forall|i: int| 0 <= i < last.len() ==> last[i] == parts[parts.len() - 1][i]);
        lemma_split_append_plain(head, last);
        assert(Seq::<char>::empty() + last =~= last);
        assert(split_components(join_components(parts)) =~= parts);
    }
}

/// A name's encoding decodes back to the name, and is two bytes longer than
/// the name's bytes.
pub proof fn lemma_name_round_trip(pre: Seq<u8>, s: Seq<char>, post: Seq<u8>)
    requires
        storable(s),
    ensures
        name_image(s).len() == name_bytes(s).len() + 2,
        parse_name(pre + name_image(s) + post, pre.len() as int)
            == Ok::<(Seq<char>, int), ArchiveError>((s, pre.len() + name_image(s).len() as int)),
{
    let b = name_bytes(s);
    let p = spec_u16_to_le_bytes(b.len() as u16);
    let data = pre + name_image(s) + post;
    lemma_u16_at_image(pre, b.len() as u16, b + post);
    assert(data =~= pre + p + (b + post));
    let start = pre.len() + 2int;
    assert(data.subrange(start, start + b.len() as int) =~= b);
    encode_utf8_valid_utf8(s);
    encode_utf8_decode_utf8(s);
}

/// Relies on `String::from_utf8`: it accepts exactly the valid UTF-8 byte
/// sequences, and the string then holds the characters they encode.
#[verifier::external_body]
fn string_from_utf8(bytes: Vec<u8>) -> (r: Option<String>)
    ensures
        r is Some <==> valid_utf8(bytes@),
        r matches Some(s) ==> s@ == decode_utf8(bytes@),
{
    String::from_utf8(bytes).ok()
}

/// Relies on `[String]::join`: the parts in order, with the separator between
/// neighbours.
#[verifier::external_body]
fn join_with_backslash(parts: &Vec<String>) -> (r: String)
    ensures
        r@ == join_components(parts.deep_view()),
{
    parts.join("\\")
}

/// Appends the encoding of `name` to `out`: its byte length as a
/// little-endian `u16`, then its bytes.
pub fn write_name(out: &mut Vec<u8>, name: &String)
    requires
        storable(name@),
    ensures
        final(out)@ == old(out)@ + name_image(name@),
{
    let b = name.as_str().as_bytes();
    put_u16(out, b.len() as u16);
    let mut v = slice_to_vec(b);
    out.append(&mut v);
    assert(final(out)@ =~= old(out)@ + name_image(name@));
}

impl Filename {
    /// Decodes the name at `pos`, returning it with the position after it.
    pub fn create_from_cursor(data: &[u8], pos: usize) -> (r: Result<(Filename, usize), ArchiveError>)
        ensures
            match r {
                Ok((f, next)) => parse_name(data@, pos as int)
                    == Ok::<(Seq<char>, int), ArchiveError>((f.filename@, next as int)),
                Err(e) => parse_name(data@, pos as int) == Err::<(Seq<char>, int), ArchiveError>(e),
            },
    {
        let n = data.len();
        if pos > n || n - pos < 2 {
            return Err(ArchiveError::Truncated);
        }
        let len = get_u16(data, pos) as usize;
        if n - pos - 2 < len {
            return Err(ArchiveError::Truncated);
        }
        let bytes = slice_to_vec(&data[pos + 2..pos + 2 + len]);
        match string_from_utf8(bytes) {
            None => Err(ArchiveError::InvalidUtf8),
            Some(filename) => Ok((Filename { filename }, pos + 2 + len)),
        }
    }

    /// The internal name of a path: its components joined by backslashes,
    /// whatever the host's separator.
    pub fn from_path(components: &Vec<String>) -> (r: Filename)
        ensures
            r.filename@ == join_components(components.deep_view()),
    {
        Filename { filename: join_with_backslash(components) }
    }

    /// The number of bytes of the name.
    pub fn byte_len(&self) -> (r: usize)
        ensures
            r == name_bytes(self.filename@).len(),
    {
        self.filename.as_str().as_bytes().len()
    }

    /// Appends the name's encoding to `out`.
    pub fn serialize(&self, out: &mut Vec<u8>)
        requires
            storable(self.filename@),
        ensures
            final(out)@ == old(out)@ + name_image(self.filename@),
    {
        write_name(out, &self.filename);
    }

    /// The path components that the name stands for: the pieces between its
    /// backslashes.
    pub fn components(&self) -> (r: Vec<String>)
        ensures
            r.deep_view() == split_components(self.filename@),
    {
        let s = self.filename.as_str();
        let len = s.unicode_len();
        let mut parts: Vec<String> = Vec::new();
        let mut from: usize = 0;
        let mut i: usize = 0;
        assert(s@.subrange(0, 0) =~= Seq::<char>::empty());
        assert(parts.deep_view().push(s@.subrange(0, 0)) =~= seq![Seq::<char>::empty()]);
        while i < len
            invariant
                len == s@.len(),
                s@ == self.filename@,
                from <= i <= len,
                split_components(s@.subrange(0, i as int))
                    == parts.deep_view().push(s@.subrange(from as int, i as int)),
            decreases len - i,
        {
            let c = s.get_char(i);
            proof {
                let t = s@.subrange(0, i + 1);
                assert(t.drop_last() =~= s@.subrange(0, i as int));
                assert(t.last() == c);
            }
            if c == '\\' {
                let ghost before = parts.deep_view();
                let piece = String::from_str(s.substring_char(from, i));
                parts.push(piece);
                assert(parts.deep_view() =~= before.push(s@.subrange(from as int, i as int)));
                from = i + 1;
                assert(s@.subrange(from as int, i + 1) =~= Seq::<char>::empty());
            } else {
                assert(s@.subrange(from as int, i + 1) =~= s@.subrange(from as int, i as int).push(c));
            }
            i = i + 1;
        }
        let ghost before = parts.deep_view();
        let last = String::from_str(s.substring_char(from, len));
        parts.push(last);
        assert(parts.deep_view() =~= before.push(s@.subrange(from as int, len as int)));
        assert(s@.subrange(0, len as int) =~= s@);
        parts
    }
}

} // verus!
