//! The names of stats channels.
use vstd::prelude::*;
use vstd::std_specs::iter::IteratorSpec;
use vstd::string::*;
use vstd::utf8::{decode_utf8, encode_utf8, encode_utf8_decode_utf8, is_char_boundary};

verus! {

/// The most bytes a channel name may have.
pub const NAME_LIMIT: usize = 100;

/// A label and a value with a space between them.
pub open spec fn labelled(label: Seq<char>, value: Seq<char>) -> Seq<char> {
    label + " "@ + value
}

/// The name can be cut to the limit: it is within the limit, or a character starts
/// right there.
pub open spec fn can_shorten(name: Seq<char>) -> bool {
    let bytes = encode_utf8(name);
    bytes.len() <= NAME_LIMIT || is_char_boundary(bytes, NAME_LIMIT as int)
}

/// The longest part of the name, from its start, that is within the limit.
pub open spec fn shortened(name: Seq<char>) -> Seq<char> {
    let bytes = encode_utf8(name);
    if bytes.len() <= NAME_LIMIT {
        name
    } else {
        decode_utf8(bytes.subrange(0, NAME_LIMIT as int))
    }
}

/// The name of the channel that shows `value` under `label`.
pub open spec fn channel_name_text(label: Seq<char>, value: Seq<char>) -> Seq<char> {
    shortened(labelled(label, value))
}

/// The label and the value in one text.
fn join(label: &str, value: &str) -> (name: String)
    ensures
        name@ == labelled(label@, value@),
{
    label.to_owned().concat(" ").concat(value)
}

/// Whether `channel_name` can cut the name where it has to.
pub fn is_nameable(label: &str, value: &str) -> (r: bool)
    ensures
        r == can_shorten(labelled(label@, value@)),
{
    let name = join(label, value);
    name.as_str().as_bytes().len() <= NAME_LIMIT || name.as_str().is_char_boundary(NAME_LIMIT)
}

/// The name of the channel that shows `value` under `label`, cut to the limit.
pub fn channel_name(label: &str, value: String) -> (name: String)
    requires
        can_shorten(labelled(label@, value@)),
    ensures
        name@ == channel_name_text(label@, value@),
        encode_utf8(name@).len() <= NAME_LIMIT,
{
    let name = join(label, value.as_str());
    let len: usize = name.as_str().as_bytes().len();
    if len <= NAME_LIMIT {
        name
    } else {
        let (front, _) = name.as_str().split_at(NAME_LIMIT);
        proof {
            encode_utf8_decode_utf8(front@);
        }
        front.to_owned()
    }
}

/// Whether `text` starts with `prefix`.
pub fn starts_with(text: &str, prefix: &str) -> (r: bool)
    ensures
        r == prefix@.is_prefix_of(text@),
{
    let mut rest = text.chars();
    let mut wanted = prefix.chars();
    let ghost mut done: int = 0;
    loop
        invariant
            0 <= done <= prefix@.len(),
            done <= text@.len(),
            prefix@.take(done) == text@.take(done),
            rest.remaining() == text@.skip(done),
            wanted.remaining() == prefix@.skip(done),
        decreases prefix@.len() - done,
    {
        match wanted.next() {
            None => {
                assert(prefix@.take(done) == prefix@);
                return true;
            },
            Some(c) => {
                match rest.next() {
                    None => {
                        return false;
                    },
                    Some(d) => {
                        if c != d {
                            assert(prefix@[done] != text@[done]);
                            return false;
                        }
                    },
                }
                proof {
                    assert(prefix@.take(done + 1) == prefix@.take(done).push(c));
                    assert(text@.take(done + 1) == text@.take(done).push(c));
                    done = done + 1;
                }
            },
        }
    }
}

} // verus!
