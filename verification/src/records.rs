//! The concrete record schemas of the save-data family, built purely by
//! composing the framework's codecs. Each constructor's contract pins the
//! schema down field by field.
//!
//! Alignment declared on these fields lands the field's end on a byte
//! boundary (the composer pads after the field); the per-element padding
//! of `AlignSpec` stays available to any schema that needs it.

use vstd::prelude::*;
use crate::schema::{Codec, Field, AlignSpec, LenPolicy};

verus! {

/// A field carries the given name and padding.
pub open spec fn field_is(f: Field, name: Seq<char>, align: int) -> bool {
    f.name@ == name && f.align == align
}

/// An element row without padding whose elements all use one codec.
pub open spec fn plain_array(c: Codec, count: int) -> bool {
    c matches Codec::Array { elem, count: n, align }
        && n == count && align.align == 0
}

/// Builds one unpadded field.
fn field(name: &str, codec: Codec) -> (r: Field)
    ensures
        field_is(r, name@, 0),
        r.codec == codec,
{
    Field { name: name.to_owned(), align: 0, codec }
}

/// Builds one field padded to a byte boundary.
fn byte_field(name: &str, codec: Codec) -> (r: Field)
    ensures
        field_is(r, name@, 8),
        r.codec == codec,
{
    Field { name: name.to_owned(), align: 8, codec }
}

/// Builds an unpadded fixed-count array codec.
fn array_of(elem: Codec, count: usize) -> (r: Codec)
    ensures
        plain_array(r, count as int),
        r matches Codec::Array { elem: e, .. } && *e == elem,
{
    Codec::Array { elem: Box::new(elem), count, align: AlignSpec::none() }
}

/// The user-profile record: a byte-aligned flag and three strings.
pub open spec fn is_user_schema(c: Codec) -> bool {
    c matches Codec::Record { fields } && {
        let fs = fields@;
        &&& fs.len() == 4
        &&& field_is(fs[0], "show_player_id"@, 8) && fs[0].codec is Bool
        &&& field_is(fs[1], "self_intro"@, 0) && fs[1].codec is Str
        &&& field_is(fs[2], "avatar"@, 0) && fs[2].codec is Str
        &&& field_is(fs[3], "background"@, 0) && fs[3].codec is Str
    }
}

pub fn user_schema() -> (r: Codec)
    ensures
        is_user_schema(r),
{
    let mut fields: Vec<Field> = Vec::new();
    fields.push(byte_field("show_player_id", Codec::Bool));
    fields.push(field("self_intro", Codec::Str));
    fields.push(field("avatar", Codec::Str));
    fields.push(field("background", Codec::Str));
    Codec::Record { fields }
}

/// One difficulty's clear/full-combo/perfect counts.
pub open spec fn is_level_schema(c: Codec) -> bool {
    c matches Codec::Record { fields } && {
        let fs = fields@;
        &&& fs.len() == 3
        &&& field_is(fs[0], "clear"@, 0) && fs[0].codec is U16
        &&& field_is(fs[1], "fc"@, 0) && fs[1].codec is U16
        &&& field_is(fs[2], "phi"@, 0) && fs[2].codec is U16
    }
}

fn level_schema() -> (r: Codec)
    ensures
        is_level_schema(r),
{
    let mut fields: Vec<Field> = Vec::new();
    fields.push(field("clear", Codec::U16));
    fields.push(field("fc", Codec::U16));
    fields.push(field("phi", Codec::U16));
    Codec::Record { fields }
}

/// The four difficulties' counts.
pub open spec fn is_multi_level_schema(c: Codec) -> bool {
    c matches Codec::Record { fields } && {
        let fs = fields@;
        &&& fs.len() == 4
        &&& field_is(fs[0], "ez"@, 0) && is_level_schema(fs[0].codec)
        &&& field_is(fs[1], "hd"@, 0) && is_level_schema(fs[1].codec)
        &&& field_is(fs[2], "in"@, 0) && is_level_schema(fs[2].codec)
        &&& field_is(fs[3], "at"@, 0) && is_level_schema(fs[3].codec)
    }
}

fn multi_level_schema() -> (r: Codec)
    ensures
        is_multi_level_schema(r),
{
    let mut fields: Vec<Field> = Vec::new();
    fields.push(field("ez", level_schema()));
    fields.push(field("hd", level_schema()));
    fields.push(field("in", level_schema()));
    fields.push(field("at", level_schema()));
    Codec::Record { fields }
}

/// The save-summary record: version, rank, rating bits, game version,
/// avatar and the per-difficulty counts.
pub open spec fn is_summary_schema(c: Codec) -> bool {
    c matches Codec::Record { fields } && {
        let fs = fields@;
        &&& fs.len() == 6
        &&& field_is(fs[0], "save_version"@, 0) && fs[0].codec is U8
        &&& field_is(fs[1], "challenge_mode_rank"@, 0) && fs[1].codec is U16
        &&& field_is(fs[2], "rks"@, 0) && fs[2].codec is F32Bits
        &&& field_is(fs[3], "game_version"@, 0) && fs[3].codec is VarInt
        &&& field_is(fs[4], "avatar"@, 0) && fs[4].codec is Str
        &&& field_is(fs[5], "level"@, 0) && is_multi_level_schema(fs[5].codec)
    }
}

pub fn summary_schema() -> (r: Codec)
    ensures
        is_summary_schema(r),
{
    let mut fields: Vec<Field> = Vec::new();
    fields.push(field("save_version", Codec::U8));
    fields.push(field("challenge_mode_rank", Codec::U16));
    fields.push(field("rks", Codec::F32Bits));
    fields.push(field("game_version", Codec::VarInt));
    fields.push(field("avatar", Codec::Str));
    fields.push(field("level", multi_level_schema()));
    Codec::Record { fields }
}

/// One unlockable key: its name, a length byte, eight kind flags, and a
/// flag list holding one entry less than the length byte says.
pub open spec fn is_key_schema(c: Codec) -> bool {
    c matches Codec::Record { fields } && {
        let fs = fields@;
        &&& fs.len() == 4
        &&& field_is(fs[0], "name"@, 0) && fs[0].codec is Str
        &&& field_is(fs[1], "length"@, 0) && fs[1].codec is U8
        &&& field_is(fs[2], "ktype"@, 0) && {
            &&& plain_array(fs[2].codec, 8)
            &&& fs[2].codec matches Codec::Array { elem, .. } && *elem is ByteBool
        }
        &&& field_is(fs[3], "flag"@, 8) && (fs[3].codec matches Codec::VarArray {
            elem,
            len,
            align,
        } && *elem is Bool && align.align == 0 && (len matches LenPolicy::SiblingMinusOne(nm)
            && nm@ == "length"@))
    }
}

fn key_schema() -> (r: Codec)
    ensures
        is_key_schema(r),
{
    let mut fields: Vec<Field> = Vec::new();
    fields.push(field("name", Codec::Str));
    fields.push(field("length", Codec::U8));
    fields.push(field("ktype", array_of(Codec::ByteBool, 8)));
    fields.push(
        byte_field(
            "flag",
            Codec::VarArray {
                elem: Box::new(Codec::Bool),
                len: LenPolicy::SiblingMinusOne("length".to_owned()),
                align: AlignSpec::none(),
            },
        ),
    );
    Codec::Record { fields }
}

/// The key list: a count and that many keys.
pub open spec fn is_key_list_schema(c: Codec) -> bool {
    c matches Codec::Record { fields } && {
        let fs = fields@;
        &&& fs.len() == 2
        &&& field_is(fs[0], "key_sum"@, 0) && fs[0].codec is VarInt
        &&& field_is(fs[1], "key_list"@, 0) && (fs[1].codec matches Codec::VarArray {
            elem,
            len,
            align,
        } && is_key_schema(*elem) && align.align == 0 && (len matches LenPolicy::Sibling(nm)
            && nm@ == "key_sum"@))
    }
}

fn key_list_schema() -> (r: Codec)
    ensures
        is_key_list_schema(r),
{
    let mut fields: Vec<Field> = Vec::new();
    fields.push(field("key_sum", Codec::VarInt));
    fields.push(
        field(
            "key_list",
            Codec::VarArray {
                elem: Box::new(key_schema()),
                len: LenPolicy::Sibling("key_sum".to_owned()),
                align: AlignSpec::none(),
            },
        ),
    );
    Codec::Record { fields }
}

/// The unlockable-key record: the key list and a few read flags.
pub open spec fn is_game_key_schema(c: Codec) -> bool {
    c matches Codec::Record { fields } && {
        let fs = fields@;
        &&& fs.len() == 5
        &&& field_is(fs[0], "key_list"@, 0) && is_key_list_schema(fs[0].codec)
        &&& field_is(fs[1], "lanota_read_keys"@, 0) && {
            &&& plain_array(fs[1].codec, 8)
            &&& fs[1].codec matches Codec::Array { elem, .. } && *elem is ByteBool
        }
        &&& field_is(fs[2], "camellia_read_key"@, 0) && {
            &&& plain_array(fs[2].codec, 8)
            &&& fs[2].codec matches Codec::Array { elem, .. } && *elem is ByteBool
        }
        &&& field_is(fs[3], "side_story4_begin_read_key"@, 0) && fs[3].codec is Bool
        &&& field_is(fs[4], "old_score_cleared_v390"@, 0) && fs[4].codec is Bool
    }
}

pub fn game_key_schema() -> (r: Codec)
    ensures
        is_game_key_schema(r),
{
    let mut fields: Vec<Field> = Vec::new();
    fields.push(field("key_list", key_list_schema()));
    fields.push(field("lanota_read_keys", array_of(Codec::ByteBool, 8)));
    fields.push(field("camellia_read_key", array_of(Codec::ByteBool, 8)));
    fields.push(field("side_story4_begin_read_key", Codec::Bool));
    fields.push(field("old_score_cleared_v390", Codec::Bool));
    Codec::Record { fields }
}

/// First-run and tip flags, padded out to a byte.
pub open spec fn is_base_schema(c: Codec) -> bool {
    c matches Codec::Record { fields } && {
        let fs = fields@;
        &&& fs.len() == 4
        &&& field_is(fs[0], "is_first_run"@, 0) && fs[0].codec is Bool
        &&& field_is(fs[1], "legacy_chapter_finished"@, 0) && fs[1].codec is Bool
        &&& field_is(fs[2], "already_show_collection_tip"@, 0) && fs[2].codec is Bool
        &&& field_is(fs[3], "already_show_auto_unlock_in_tip"@, 0) && fs[3].codec is Bool
    }
}

fn base_schema() -> (r: Codec)
    ensures
        is_base_schema(r),
{
    let mut fields: Vec<Field> = Vec::new();
    fields.push(field("is_first_run", Codec::Bool));
    fields.push(field("legacy_chapter_finished", Codec::Bool));
    fields.push(field("already_show_collection_tip", Codec::Bool));
    fields.push(field("already_show_auto_unlock_in_tip", Codec::Bool));
    Codec::Record { fields }
}

/// The five in-game currency tiers.
pub open spec fn is_money_schema(c: Codec) -> bool {
    c matches Codec::Record { fields } && {
        let fs = fields@;
        &&& fs.len() == 5
        &&& field_is(fs[0], "kib"@, 0) && fs[0].codec is VarInt
        &&& field_is(fs[1], "mib"@, 0) && fs[1].codec is VarInt
        &&& field_is(fs[2], "gib"@, 0) && fs[2].codec is VarInt
        &&& field_is(fs[3], "tib"@, 0) && fs[3].codec is VarInt
        &&& field_is(fs[4], "pib"@, 0) && fs[4].codec is VarInt
    }
}

fn money_schema() -> (r: Codec)
    ensures
        is_money_schema(r),
{
    let mut fields: Vec<Field> = Vec::new();
    fields.push(field("kib", Codec::VarInt));
    fields.push(field("mib", Codec::VarInt));
    fields.push(field("gib", Codec::VarInt));
    fields.push(field("tib", Codec::VarInt));
    fields.push(field("pib", Codec::VarInt));
    Codec::Record { fields }
}

/// The eighth chapter's unlock flags, padded out to a byte.
pub open spec fn is_chapter8_base_schema(c: Codec) -> bool {
    c matches Codec::Record { fields } && {
        let fs = fields@;
        &&& fs.len() == 3
        &&& field_is(fs[0], "unlock_begin"@, 0) && fs[0].codec is Bool
        &&& field_is(fs[1], "unlock_second_phase"@, 0) && fs[1].codec is Bool
        &&& field_is(fs[2], "passed"@, 0) && fs[2].codec is Bool
    }
}

fn chapter8_base_schema() -> (r: Codec)
    ensures
        is_chapter8_base_schema(r),
{
    let mut fields: Vec<Field> = Vec::new();
    fields.push(field("unlock_begin", Codec::Bool));
    fields.push(field("unlock_second_phase", Codec::Bool));
    fields.push(field("passed", Codec::Bool));
    Codec::Record { fields }
}

/// A fixed row of single-bit booleans.
pub open spec fn is_bit_row(c: Codec, count: int) -> bool {
    plain_array(c, count) && (c matches Codec::Array { elem, .. } && *elem is Bool)
}

/// The game-progress record: flag groups and counters, several of them
/// padded out to byte boundaries.
pub open spec fn is_game_progress_schema(c: Codec) -> bool {
    c matches Codec::Record { fields } && {
        let fs = fields@;
        &&& fs.len() == 13
        &&& field_is(fs[0], "base"@, 8) && is_base_schema(fs[0].codec)
        &&& field_is(fs[1], "completed"@, 0) && fs[1].codec is Str
        &&& field_is(fs[2], "song_update_info"@, 0) && fs[2].codec is VarInt
        &&& field_is(fs[3], "challenge_mode_rank"@, 0) && fs[3].codec is U16
        &&& field_is(fs[4], "money"@, 0) && is_money_schema(fs[4].codec)
        &&& field_is(fs[5], "unlock_flag_of_spasmodic"@, 8) && is_bit_row(fs[5].codec, 4)
        &&& field_is(fs[6], "unlock_flag_of_igallta"@, 8) && is_bit_row(fs[6].codec, 4)
        &&& field_is(fs[7], "unlock_flag_of_rrharil"@, 8) && is_bit_row(fs[7].codec, 4)
        &&& field_is(fs[8], "flag_of_song_record_key"@, 0) && is_bit_row(fs[8].codec, 8)
        &&& field_is(fs[9], "random_version_unlocked"@, 8) && is_bit_row(fs[9].codec, 6)
        &&& field_is(fs[10], "chapter8_base"@, 8) && is_chapter8_base_schema(fs[10].codec)
        &&& field_is(fs[11], "chapter8_song_unlocked"@, 8) && is_bit_row(fs[11].codec, 6)
        &&& field_is(fs[12], "flag_of_song_record_key_takumi"@, 8) && is_bit_row(fs[12].codec, 3)
    }
}

pub fn game_progress_schema() -> (r: Codec)
    ensures
        is_game_progress_schema(r),
{
    let mut fields: Vec<Field> = Vec::new();
    fields.push(byte_field("base", base_schema()));
    fields.push(field("completed", Codec::Str));
    fields.push(field("song_update_info", Codec::VarInt));
    fields.push(field("challenge_mode_rank", Codec::U16));
    fields.push(field("money", money_schema()));
    fields.push(byte_field("unlock_flag_of_spasmodic", array_of(Codec::Bool, 4)));
    fields.push(byte_field("unlock_flag_of_igallta", array_of(Codec::Bool, 4)));
    fields.push(byte_field("unlock_flag_of_rrharil", array_of(Codec::Bool, 4)));
    fields.push(field("flag_of_song_record_key", array_of(Codec::Bool, 8)));
    fields.push(byte_field("random_version_unlocked", array_of(Codec::Bool, 6)));
    fields.push(byte_field("chapter8_base", chapter8_base_schema()));
    fields.push(byte_field("chapter8_song_unlocked", array_of(Codec::Bool, 6)));
    fields.push(byte_field("flag_of_song_record_key_takumi", array_of(Codec::Bool, 3)));
    Codec::Record { fields }
}

/// One difficulty's score and accuracy bits.
pub open spec fn is_level_record_schema(c: Codec) -> bool {
    c matches Codec::Record { fields } && {
        let fs = fields@;
        &&& fs.len() == 2
        &&& field_is(fs[0], "score"@, 0) && fs[0].codec is U32
        &&& field_is(fs[1], "acc"@, 0) && fs[1].codec is F32Bits
    }
}

fn level_record_schema() -> (r: Codec)
    ensures
        is_level_record_schema(r),
{
    let mut fields: Vec<Field> = Vec::new();
    fields.push(field("score", Codec::U32));
    fields.push(field("acc", Codec::F32Bits));
    Codec::Record { fields }
}

/// One song's entry: its name, a length marker, unlock and full-combo
/// flags, and one level record per unlocked difficulty.
pub open spec fn is_song_entry_schema(c: Codec) -> bool {
    c matches Codec::Record { fields } && {
        let fs = fields@;
        &&& fs.len() == 5
        &&& field_is(fs[0], "name"@, 0) && fs[0].codec is Str
        &&& field_is(fs[1], "length"@, 0) && fs[1].codec is VarInt
        &&& field_is(fs[2], "unlock"@, 0) && {
            &&& plain_array(fs[2].codec, 5)
            &&& fs[2].codec matches Codec::Array { elem, .. } && *elem is ByteBool
        }
        &&& field_is(fs[3], "fc"@, 0) && {
            &&& plain_array(fs[3].codec, 5)
            &&& fs[3].codec matches Codec::Array { elem, .. } && *elem is ByteBool
        }
        &&& field_is(fs[4], "levels"@, 0) && (fs[4].codec matches Codec::VarArray {
            elem,
            len,
            align,
        } && is_level_record_schema(*elem) && align.align == 0 && (len
            matches LenPolicy::CountTrue(nm) && nm@ == "unlock"@))
    }
}

fn song_entry_schema() -> (r: Codec)
    ensures
        is_song_entry_schema(r),
{
    let mut fields: Vec<Field> = Vec::new();
    fields.push(field("name", Codec::Str));
    fields.push(field("length", Codec::VarInt));
    fields.push(field("unlock", array_of(Codec::ByteBool, 5)));
    fields.push(field("fc", array_of(Codec::ByteBool, 5)));
    fields.push(
        field(
            "levels",
            Codec::VarArray {
                elem: Box::new(level_record_schema()),
                len: LenPolicy::CountTrue("unlock".to_owned()),
                align: AlignSpec::none(),
            },
        ),
    );
    Codec::Record { fields }
}

/// The per-song score record: a count and that many song entries.
pub open spec fn is_game_record_schema(c: Codec) -> bool {
    c matches Codec::Record { fields } && {
        let fs = fields@;
        &&& fs.len() == 2
        &&& field_is(fs[0], "song_sum"@, 0) && fs[0].codec is VarInt
        &&& field_is(fs[1], "song_list"@, 0) && (fs[1].codec matches Codec::VarArray {
            elem,
            len,
            align,
        } && is_song_entry_schema(*elem) && align.align == 0 && (len matches LenPolicy::Sibling(nm)
            && nm@ == "song_sum"@))
    }
}

pub fn game_record_schema() -> (r: Codec)
    ensures
        is_game_record_schema(r),
{
    let mut fields: Vec<Field> = Vec::new();
    fields.push(field("song_sum", Codec::VarInt));
    fields.push(
        field(
            "song_list",
            Codec::VarArray {
                elem: Box::new(song_entry_schema()),
                len: LenPolicy::Sibling("song_sum".to_owned()),
                align: AlignSpec::none(),
            },
        ),
    );
    Codec::Record { fields }
}

} // verus!
