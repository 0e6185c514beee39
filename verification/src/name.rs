//! The names of files as text. A name that is not text is written as a mark
//! and its bytes, so that different names stay different.
use crate::text::{begins_with, chars_of};
use vstd::prelude::*;

verus! {

/// The character that a name written in bytes begins with.
pub const MARK: char = '\u{10fffd}';

/// A name written in bytes.
pub open spec fn escaped(bytes: Seq<u8>) -> Seq<char> {
    seq![MARK] + bytes.map_values(|byte: u8| byte as char)
}

/// The text of a name: itself, where it is text and does not look like a name
/// written in bytes.
pub open spec fn name_form(text: Option<Seq<char>>, bytes: Seq<u8>) -> Seq<char> {
    match text {
        Some(text) => if text.len() > 0 && text[0] == MARK {
            escaped(bytes)
        } else {
            text
        },
        None => escaped(bytes),
    }
}

/// The text of the name with these bytes, which are those of `text` where the
/// name is text.
pub fn name_text(text: Option<&str>, bytes: &Vec<u8>) -> (name: String)
    ensures
        name@ == name_form(
            match text {
                Some(text) => Some(text@),
                None => None,
            },
            bytes@,
        ),
{
    if let Some(text) = text {
        if !begins_with(text, MARK) {
            return text.to_owned();
        }
    }
    let mut name = String::new();
    name.push(MARK);
    let mut i: usize = 0;
    proof {
        assert(name@ =~= escaped(bytes@.take(0)));
    }
    while i < bytes.len()
        invariant
            i <= bytes@.len(),
            name@ == escaped(bytes@.take(i as int)),
        decreases bytes@.len() - i,
    {
        proof {
            assert(escaped(bytes@.take(i + 1)) =~= escaped(bytes@.take(i as int)).push(
                bytes@[i as int] as char,
            ));
        }
        name.push(bytes[i] as char);
        i += 1;
    }
    proof {
        assert(bytes@.take(bytes@.len() as int) =~= bytes@);
    }
    name
}

/// Whether a text is a name written in bytes.
pub open spec fn is_escaped(name: Seq<char>) -> bool {
    &&& name.len() > 0
    &&& name[0] == MARK
    &&& forall|i: int| 1 <= i < name.len() ==> (#[trigger] name[i]) <= '\u{ff}'
}

/// The byte that a character stands for.
fn byte_of(c: char) -> (byte: u8)
    requires
        c <= '\u{ff}',
    ensures
        byte as char == c,
{
    c as u8
}

/// The bytes of a name that is written in bytes.
pub fn name_bytes(name: &str) -> (res: Option<Vec<u8>>)
    ensures
        match res {
            Some(bytes) => name@ == escaped(bytes@),
            None => !is_escaped(name@),
        },
{
    let chars = chars_of(name);
    if chars.len() == 0 || chars[0] != MARK {
        return None;
    }
    let mut bytes: Vec<u8> = Vec::new();
    let mut i: usize = 1;
    while i < chars.len()
        invariant
            1 <= i <= chars@.len(),
            chars@ == name@,
            chars@[0] == MARK,
            name@.take(i as int) == escaped(bytes@),
        decreases chars@.len() - i,
    {
        let c = chars[i];
        if c > '\u{ff}' {
            return None;
        }
        let byte: u8 = byte_of(c);
        proof {
            assert(escaped(bytes@.push(byte)) =~= escaped(bytes@).push(c));
            assert(name@.take(i + 1) =~= name@.take(i as int).push(c));
        }
        bytes.push(byte);
        i += 1;
    }
    proof {
        assert(name@.take(chars@.len() as int) =~= name@);
    }
    Some(bytes)
}

/// Different names have different texts, where two names that are text differ
/// in their texts, and two names in their bytes.
pub proof fn law_names_stay_different(
    a_text: Option<Seq<char>>,
    a: Seq<u8>,
    b_text: Option<Seq<char>>,
    b: Seq<u8>,
)
    requires
        name_form(a_text, a) == name_form(b_text, b),
    ensures
        a == b || (a_text is Some && a_text == b_text),
{
    let (x, y) = (name_form(a_text, a), name_form(b_text, b));
    if x == escaped(a) && y == escaped(b) {
        assert(x.len() == a.len() + 1 && y.len() == b.len() + 1);
        assert forall|i: int| 0 <= i < a.len() implies a[i] == b[i] by {
            assert(x[i + 1] == a[i] as char);
            assert(y[i + 1] == b[i] as char);
        }
        assert(a =~= b);
    } else {
        assert(escaped(a)[0] == MARK && escaped(b)[0] == MARK);
    }
}

/// A name is read back from its text: the bytes that were written, and no
/// others.
pub proof fn law_written_bytes_are_read_back(a: Seq<u8>, b: Seq<u8>)
    requires
        escaped(a) == escaped(b),
    ensures
        a == b,
        is_escaped(escaped(a)),
{
    law_names_stay_different(None, a, None, b);
    assert forall|i: int| 1 <= i < escaped(a).len() implies (#[trigger] escaped(a)[i])
        <= '\u{ff}' by {
        assert(escaped(a)[i] == a[i - 1] as char);
    }
}

/// A name that is text is written as it is, unless it begins with the mark;
/// every other name is written so that its bytes can be read back.
pub proof fn law_names_are_written_as_they_are(
    text: Option<&str>,
    bytes: &Vec<u8>,
    name: String,
    written: &str,
    read: Option<Vec<u8>>,
)
    requires
        call_ensures(name_text, (text, bytes), name),
        written@ == name@,
        call_ensures(name_bytes, (written,), read),
    ensures
        match text {
            Some(text) => if text@.len() > 0 && text@[0] == MARK {
                read matches Some(found) && found@ == bytes@
            } else {
                name@ == text@ && read is None
            },
            None => read matches Some(found) && found@ == bytes@,
        },
{
    if text is None || (text->Some_0@.len() > 0 && text->Some_0@[0] == MARK) {
        assert(name@ == escaped(bytes@));
        law_written_bytes_are_read_back(bytes@, bytes@);
        if let Some(found) = read {
            law_written_bytes_are_read_back(found@, bytes@);
        }
    } else if let Some(found) = read {
        assert(escaped(found@)[0] == MARK);
    }
}

} // verus!
