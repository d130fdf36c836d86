//! How the process table shows a process name.
use vstd::prelude::*;
use vstd::string::StringSliceAdditionalSpecFns;

verus! {

/// Names longer than this many bytes are shortened in the process table.
pub const NAME_DISPLAY_MAX: usize = 25;

/// How many bytes of a shortened name the process table keeps before `...`.
pub const NAME_DISPLAY_KEPT: usize = 22;

/// The text that the process table shows for `name`: the name itself when it
/// has at most `NAME_DISPLAY_MAX` bytes, else its first `NAME_DISPLAY_KEPT`
/// bytes followed by `...`.
pub open spec fn spec_display_name(name: &str) -> Seq<char> {
    if name.spec_bytes().len() > NAME_DISPLAY_MAX {
        vstd::utf8::decode_utf8(name.spec_bytes().subrange(0, NAME_DISPLAY_KEPT as int))
            + seq!['.', '.', '.']
    } else {
        name@
    }
}

/// Shortens a long process name for the process table. A name of more than
/// `NAME_DISPLAY_MAX` bytes is cut after `NAME_DISPLAY_KEPT` bytes, which must
/// end a character there. (A `str` never holds more than `usize::MAX` bytes.)
pub fn display_name(name: &str) -> (shown: String)
    requires
        name.spec_bytes().len() <= usize::MAX,
        name.spec_bytes().len() > NAME_DISPLAY_MAX ==> vstd::utf8::is_char_boundary(
            name.spec_bytes(),
            NAME_DISPLAY_KEPT as int,
        ),
    ensures
        shown@ == spec_display_name(name),
{
    if name.len() > NAME_DISPLAY_MAX {
        let (head, _rest) = name.split_at(NAME_DISPLAY_KEPT);
        proof {
            vstd::utf8::encode_utf8_decode_utf8(head@);
            reveal_strlit("...");
        }
        let mut shown = head.to_owned();
        shown.append("...");
        assert("..."@ =~= seq!['.', '.', '.']);
        shown
    } else {
        name.to_owned()
    }
}


/// Encoding two character sequences one after the other gives their encodings
/// one after the other.
proof fn lemma_encode_utf8_concat(a: Seq<char>, b: Seq<char>)
    ensures
        vstd::utf8::encode_utf8(a + b) == vstd::utf8::encode_utf8(a) + vstd::utf8::encode_utf8(b),
    decreases a.len(),
{
    if a.len() == 0 {
        assert(a + b =~= b);
        assert(vstd::utf8::encode_utf8(a) + vstd::utf8::encode_utf8(b) =~= vstd::utf8::encode_utf8(
            b,
        ));
    } else {
        lemma_encode_utf8_concat(a.drop_first(), b);
        assert((a + b).drop_first() =~= a.drop_first() + b);
        assert((a + b)[0] == a[0]);
        let head = vstd::utf8::encode_scalar(a[0] as u32);
        assert(head + (vstd::utf8::encode_utf8(a.drop_first()) + vstd::utf8::encode_utf8(b)) =~= (
        head + vstd::utf8::encode_utf8(a.drop_first())) + vstd::utf8::encode_utf8(b));
    }
}

/// What the process table shows of a name, in UTF-8 bytes: the name itself
/// when it has at most `NAME_DISPLAY_MAX` bytes; else exactly its first
/// `NAME_DISPLAY_KEPT` bytes followed by the three bytes of `...`, whatever the
/// name's length.
pub proof fn lemma_display_name_bytes(name: &str)
    requires
        name.spec_bytes().len() > NAME_DISPLAY_MAX ==> vstd::utf8::is_char_boundary(
            name.spec_bytes(),
            NAME_DISPLAY_KEPT as int,
        ),
    ensures
        name.spec_bytes().len() <= NAME_DISPLAY_MAX ==> spec_display_name(name) == name@,
        name.spec_bytes().len() > NAME_DISPLAY_MAX ==> vstd::utf8::encode_utf8(
            spec_display_name(name),
        ) == name.spec_bytes().subrange(0, NAME_DISPLAY_KEPT as int) + seq![46u8, 46u8, 46u8],
{
    let bytes = name.spec_bytes();
    if bytes.len() > NAME_DISPLAY_MAX {
        let head = bytes.subrange(0, NAME_DISPLAY_KEPT as int);
        vstd::utf8::encode_utf8_valid_utf8(name@);
        vstd::utf8::valid_utf8_split(bytes, NAME_DISPLAY_KEPT as int);
        vstd::utf8::decode_utf8_encode_utf8(head);
        let dots = seq!['.', '.', '.'];
        lemma_encode_utf8_concat(vstd::utf8::decode_utf8(head), dots);
        assert('.' as u32 == 46u32);
        assert((46u32 & 0x7F) as u8 == 46u8) by (bit_vector);
        assert(vstd::utf8::encode_scalar('.' as u32) =~= seq![46u8]);
        assert(dots.drop_first().drop_first().drop_first() =~= Seq::<char>::empty());
        let one = seq!['.'];
        let two = seq!['.', '.'];
        assert(one.drop_first() =~= Seq::<char>::empty());
        assert(vstd::utf8::encode_utf8(one) == vstd::utf8::encode_scalar(one[0] as u32)
            + vstd::utf8::encode_utf8(one.drop_first()));
        assert(vstd::utf8::encode_utf8(one) =~= seq![46u8]);
        assert(two.drop_first() =~= one);
        assert(vstd::utf8::encode_utf8(two) == vstd::utf8::encode_scalar(two[0] as u32)
            + vstd::utf8::encode_utf8(two.drop_first()));
        assert(vstd::utf8::encode_utf8(two) =~= seq![46u8, 46u8]);
        assert(dots.drop_first() =~= two);
        assert(vstd::utf8::encode_utf8(dots) == vstd::utf8::encode_scalar(dots[0] as u32)
            + vstd::utf8::encode_utf8(dots.drop_first()));
        assert(vstd::utf8::encode_utf8(dots) =~= seq![46u8, 46u8, 46u8]);
    }
}

} // verus!
