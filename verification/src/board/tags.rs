//! The tags and keys of the board document as bytes: how long each is, and
//! what it starts with.

use vstd::prelude::*;
use vstd::utf8::encode_utf8;
use crate::binding::lemma_name;
use crate::text::is_delimiter;
use crate::writer::needs_quotes;

verus! {

/// The first keys of the fields of a board.
pub proof fn lemma_field_keys()
    ensures
        encode_utf8("version"@).len() == 7,
        encode_utf8("version"@)[0] == 0x76,
        encode_utf8("generator"@).len() == 9,
        encode_utf8("generator"@)[0] == 0x67,
        encode_utf8("general"@).len() == 7,
        encode_utf8("general"@)[0] == 0x67,
{
    reveal_strlit("version");
    lemma_name("version");
    reveal_strlit("generator");
    lemma_name("generator");
    reveal_strlit("general");
    lemma_name("general");
}

/// The last keys of the fields of a board.
pub proof fn lemma_more_field_keys()
    ensures
        encode_utf8("paper"@).len() == 5,
        encode_utf8("paper"@)[0] == 0x70,
        encode_utf8("title_block"@).len() == 11,
        encode_utf8("title_block"@)[0] == 0x74,
{
    reveal_strlit("paper");
    lemma_name("paper");
    reveal_strlit("title_block");
    lemma_name("title_block");
}

/// The tags of the sections of a board.
pub proof fn lemma_section_tags()
    ensures
        encode_utf8("layers"@).len() == 6,
        encode_utf8("layers"@)[0] == 0x6c,
        encode_utf8("net"@).len() == 3,
        encode_utf8("net"@)[0] == 0x6e,
        encode_utf8("segment"@).len() == 7,
        encode_utf8("segment"@)[0] == 0x73,
        encode_utf8("fp_curve"@).len() == 8,
        encode_utf8("fp_curve"@)[0] == 0x66,
{
    reveal_strlit("layers");
    lemma_name("layers");
    reveal_strlit("net");
    lemma_name("net");
    reveal_strlit("segment");
    lemma_name("segment");
    reveal_strlit("fp_curve");
    lemma_name("fp_curve");
}

/// The first keys of the general section.
pub proof fn lemma_general_keys()
    ensures
        encode_utf8("thickness"@).len() == 9,
        encode_utf8("thickness"@)[0] == 0x74,
        encode_utf8("drawings"@).len() == 8,
        encode_utf8("drawings"@)[0] == 0x64,
        encode_utf8("tracks"@).len() == 6,
        encode_utf8("tracks"@)[0] == 0x74,
{
    reveal_strlit("thickness");
    lemma_name("thickness");
    reveal_strlit("drawings");
    lemma_name("drawings");
    reveal_strlit("tracks");
    lemma_name("tracks");
}

/// The last keys of the general section.
pub proof fn lemma_more_general_keys()
    ensures
        encode_utf8("zones"@).len() == 5,
        encode_utf8("zones"@)[0] == 0x7a,
        encode_utf8("modules"@).len() == 7,
        encode_utf8("modules"@)[0] == 0x6d,
        encode_utf8("nets"@).len() == 4,
        encode_utf8("nets"@)[0] == 0x6e,
{
    reveal_strlit("zones");
    lemma_name("zones");
    reveal_strlit("modules");
    lemma_name("modules");
    reveal_strlit("nets");
    lemma_name("nets");
}

/// The symbols `user` and `signal` can be written bare.
pub proof fn lemma_user_signal_bare()
    ensures
        !needs_quotes(encode_utf8("user"@)),
        !needs_quotes(encode_utf8("signal"@)),
{
    reveal_strlit("user");
    vstd::utf8::is_ascii_chars_encode_utf8("user"@);
    assert forall|i: int| 0 <= i < encode_utf8("user"@).len() implies !is_delimiter(
        #[trigger] encode_utf8("user"@)[i],
    ) by {
        assert(encode_utf8("user"@)[i] == "user"@[i] as u8);
    }
    reveal_strlit("signal");
    vstd::utf8::is_ascii_chars_encode_utf8("signal"@);
    assert forall|i: int| 0 <= i < encode_utf8("signal"@).len() implies !is_delimiter(
        #[trigger] encode_utf8("signal"@)[i],
    ) by {
        assert(encode_utf8("signal"@)[i] == "signal"@[i] as u8);
    }
}

/// The symbols `jumper` and `mixed` can be written bare.
pub proof fn lemma_jumper_mixed_bare()
    ensures
        !needs_quotes(encode_utf8("jumper"@)),
        !needs_quotes(encode_utf8("mixed"@)),
{
    reveal_strlit("jumper");
    vstd::utf8::is_ascii_chars_encode_utf8("jumper"@);
    assert forall|i: int| 0 <= i < encode_utf8("jumper"@).len() implies !is_delimiter(
        #[trigger] encode_utf8("jumper"@)[i],
    ) by {
        assert(encode_utf8("jumper"@)[i] == "jumper"@[i] as u8);
    }
    reveal_strlit("mixed");
    vstd::utf8::is_ascii_chars_encode_utf8("mixed"@);
    assert forall|i: int| 0 <= i < encode_utf8("mixed"@).len() implies !is_delimiter(
        #[trigger] encode_utf8("mixed"@)[i],
    ) by {
        assert(encode_utf8("mixed"@)[i] == "mixed"@[i] as u8);
    }
}

/// The symbol `power` can be written bare.
pub proof fn lemma_power_bare()
    ensures
        !needs_quotes(encode_utf8("power"@)),
{
    reveal_strlit("power");
    vstd::utf8::is_ascii_chars_encode_utf8("power"@);
    assert forall|i: int| 0 <= i < encode_utf8("power"@).len() implies !is_delimiter(
        #[trigger] encode_utf8("power"@)[i],
    ) by {
        assert(encode_utf8("power"@)[i] == "power"@[i] as u8);
    }
}

} // verus!
