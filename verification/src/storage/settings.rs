//! Preferences and their stored representation.

use vstd::prelude::*;
use vstd::string::{StrSliceExecFns, StringExecFns};

use super::{StorageError, StorageErrorKind};
use crate::packs::format::same_text;

verus! {

#[derive(Clone, Copy, Debug, PartialEq, Eq, Structural)]
pub enum ColorMode {
    Auto,
    Color,
    Monochrome,
}

#[derive(Clone, Copy, Debug, PartialEq, Eq, Structural)]
pub enum GlyphMode {
    Unicode,
    Ascii,
}

pub open spec fn color_text(mode: ColorMode) -> Seq<char> {
    match mode {
        ColorMode::Auto => "auto"@,
        ColorMode::Color => "color"@,
        ColorMode::Monochrome => "monochrome"@,
    }
}

pub open spec fn glyph_text(mode: GlyphMode) -> Seq<char> {
    match mode {
        GlyphMode::Unicode => "unicode"@,
        GlyphMode::Ascii => "ascii"@,
    }
}

impl GlyphMode {
    pub fn database_value(self) -> (r: &'static str)
        ensures
            r@ == glyph_text(self),
    {
        match self {
            GlyphMode::Unicode => "unicode",
            GlyphMode::Ascii => "ascii",
        }
    }

    pub fn from_database(value: &str) -> (r: Result<Self, StorageError>)
        ensures
            r matches Ok(m) ==> glyph_text(m) == value@,
            r is Err ==> (forall|m: GlyphMode| glyph_text(m) != value@) && r->Err_0.kind() == StorageErrorKind::Corrupt,
    {
        if same_text(value, "unicode") {
            Ok(GlyphMode::Unicode)
        } else if same_text(value, "ascii") {
            Ok(GlyphMode::Ascii)
        } else {
            proof {
                assert forall|m: GlyphMode| glyph_text(m) != value@ by {
                    match m {
                        GlyphMode::Unicode => {},
                        GlyphMode::Ascii => {},
                    }
                }
            }
            Err(StorageError::Corrupt)
        }
    }
}

impl ColorMode {
    pub fn database_value(self) -> (r: &'static str)
        ensures
            r@ == color_text(self),
    {
        match self {
            ColorMode::Auto => "auto",
            ColorMode::Color => "color",
            ColorMode::Monochrome => "monochrome",
        }
    }

    pub fn from_database(value: &str) -> (r: Result<Self, StorageError>)
        ensures
            r matches Ok(m) ==> color_text(m) == value@,
            r is Err ==> (forall|m: ColorMode| color_text(m) != value@) && r->Err_0.kind() == StorageErrorKind::Corrupt,
    {
        if same_text(value, "auto") {
            Ok(ColorMode::Auto)
        } else if same_text(value, "color") {
            Ok(ColorMode::Color)
        } else if same_text(value, "monochrome") {
            Ok(ColorMode::Monochrome)
        } else {
            proof {
                assert forall|m: ColorMode| color_text(m) != value@ by {
                    match m {
                        ColorMode::Auto => {},
                        ColorMode::Color => {},
                        ColorMode::Monochrome => {},
                    }
                }
            }
            Err(StorageError::Corrupt)
        }
    }
}

/// The keys of the seven remappable commands.
#[derive(Clone, Copy, Debug, PartialEq, Eq, Structural)]
pub struct KeyBindings {
    pub fold: char,
    pub brush: char,
    pub undo: char,
    pub reset: char,
    pub preview: char,
    pub help: char,
    pub quit: char,
}

pub open spec fn binding_keys(b: KeyBindings) -> Seq<char> {
    seq![b.fold, b.brush, b.undo, b.reset, b.preview, b.help, b.quit]
}

/// Keys the paper's movement, tab, replay, and keepsake commands keep for themselves.
pub open spec fn fixed_key(c: char) -> bool {
    c == 'h' || c == 'j' || c == 'k' || c == 'l' || c == 't' || c == 'v' || c == 'x'
}

/// A printable ASCII key, or a space for the preview command (position 4).
pub open spec fn usable_key(index: int, c: char) -> bool {
    ('!' <= c && c <= '~') || (index == 4 && c == ' ')
}

/// Every key is usable, none is reserved, and no two commands share a key.
pub open spec fn conflict_free(b: KeyBindings) -> bool {
    let keys = binding_keys(b);
    forall|i: int|
        0 <= i < 7 ==> usable_key(i, #[trigger] keys[i]) && !fixed_key(keys[i]) && forall|j: int|
            0 <= j < 7 && j != i ==> keys[j] != keys[i]
}

fn key_at(b: KeyBindings, index: usize) -> (r: char)
    requires
        index < 7,
    ensures
        r == binding_keys(b)[index as int],
{
    match index {
        0 => b.fold,
        1 => b.brush,
        2 => b.undo,
        3 => b.reset,
        4 => b.preview,
        5 => b.help,
        _ => b.quit,
    }
}

fn text_of_char(c: char) -> (r: String)
    ensures
        r@ == seq![c],
{
    let mut text = String::new();
    crate::packs::push_char(&mut text, c);
    assert(text@ =~= seq![c]);
    text
}

impl KeyBindings {
    pub fn is_conflict_free(self) -> (r: bool)
        ensures
            r == conflict_free(self),
    {
        let ghost keys = binding_keys(self);
        let mut i: usize = 0;
        while i < 7
            invariant
                keys == binding_keys(self),
                i <= 7,
                forall|q: int|
                    0 <= q < i ==> usable_key(q, #[trigger] keys[q]) && !fixed_key(keys[q]) && forall|j: int|
                        0 <= j < 7 && j != q ==> keys[j] != keys[q],
            decreases 7 - i,
        {
            let key = key_at(self, i);
            let usable = ('!' <= key && key <= '~') || (i == 4 && key == ' ');
            let fixed = key == 'h' || key == 'j' || key == 'k' || key == 'l' || key == 't' || key == 'v' || key == 'x';
            if !usable || fixed {
                return false;
            }
            let mut j: usize = 0;
            while j < 7
                invariant
                    keys == binding_keys(self),
                    i < 7,
                    key == keys[i as int],
                    j <= 7,
                    forall|q: int| 0 <= q < j && q != i ==> keys[q] != key,
                decreases 7 - j,
            {
                if j != i && key_at(self, j) == key {
                    return false;
                }
                j = j + 1;
            }
            i = i + 1;
        }
        true
    }

    /// The keys as stored: one text of one character per command.
    pub fn database_values(self) -> (r: Vec<String>)
        ensures
            r@.len() == 7,
            forall|i: int| 0 <= i < 7 ==> #[trigger] r@[i]@ == seq![binding_keys(self)[i]],
    {
        let mut values: Vec<String> = Vec::new();
        let mut i: usize = 0;
        while i < 7
            invariant
                i <= 7,
                values@.len() == i,
                forall|q: int| 0 <= q < i ==> #[trigger] values@[q]@ == seq![binding_keys(self)[q]],
            decreases 7 - i,
        {
            values.push(text_of_char(key_at(self, i)));
            i = i + 1;
        }
        values
    }

    /// Reads stored keys; each must be exactly one character and the result conflict-free.
    pub fn from_database(values: &[&str]) -> (r: Result<Self, StorageError>)
        requires
            values@.len() == 7,
        ensures
            r is Ok <==> (forall|i: int| 0 <= i < 7 ==> #[trigger] values@[i]@.len() == 1) && conflict_free(
                stored_bindings(values@),
            ),
            r matches Ok(b) ==> b == stored_bindings(values@),
            r is Err ==> r->Err_0.kind() == StorageErrorKind::Corrupt,
    {
        let mut i: usize = 0;
        while i < 7
            invariant
                values@.len() == 7,
                i <= 7,
                forall|q: int| 0 <= q < i ==> #[trigger] values@[q]@.len() == 1,
            decreases 7 - i,
        {
            if values[i].unicode_len() != 1 {
                return Err(StorageError::Corrupt);
            }
            i = i + 1;
        }
        let bindings = KeyBindings {
            fold: values[0].get_char(0),
            brush: values[1].get_char(0),
            undo: values[2].get_char(0),
            reset: values[3].get_char(0),
            preview: values[4].get_char(0),
            help: values[5].get_char(0),
            quit: values[6].get_char(0),
        };
        if bindings.is_conflict_free() {
            Ok(bindings)
        } else {
            Err(StorageError::Corrupt)
        }
    }
}

/// The bindings whose keys are the first characters of the stored values.
pub open spec fn stored_bindings(values: Seq<&str>) -> KeyBindings {
    KeyBindings {
        fold: values[0]@[0],
        brush: values[1]@[0],
        undo: values[2]@[0],
        reset: values[3]@[0],
        preview: values[4]@[0],
        help: values[5]@[0],
        quit: values[6]@[0],
    }
}

pub open spec fn default_bindings() -> KeyBindings {
    KeyBindings { fold: 'f', brush: 'b', undo: 'u', reset: 'r', preview: ' ', help: '?', quit: 'q' }
}

impl Default for KeyBindings {
    fn default() -> (r: Self)
        ensures
            r == default_bindings(),
    {
        KeyBindings { fold: 'f', brush: 'b', undo: 'u', reset: 'r', preview: ' ', help: '?', quit: 'q' }
    }
}

/// Rendering-independent preferences.
#[derive(Clone, Copy, Debug, PartialEq, Eq, Structural)]
pub struct Settings {
    pub color_mode: ColorMode,
    pub glyph_mode: GlyphMode,
    pub reduced_motion: bool,
    pub instant_reveal: bool,
    pub lesson_complete: bool,
    pub bindings: KeyBindings,
}

impl Default for Settings {
    fn default() -> (r: Self)
        ensures
            r == (Settings {
                color_mode: ColorMode::Auto,
                glyph_mode: GlyphMode::Unicode,
                reduced_motion: false,
                instant_reveal: false,
                lesson_complete: false,
                bindings: default_bindings(),
            }),
    {
        Settings {
            color_mode: ColorMode::Auto,
            glyph_mode: GlyphMode::Unicode,
            reduced_motion: false,
            instant_reveal: false,
            lesson_complete: false,
            bindings: KeyBindings::default(),
        }
    }
}

/// The default bindings are usable.
pub proof fn lemma_default_bindings_conflict_free()
    ensures
        conflict_free(default_bindings()),
{
    let keys = binding_keys(default_bindings());
    assert(keys[0] == 'f' && keys[1] == 'b' && keys[2] == 'u' && keys[3] == 'r' && keys[4] == ' ' && keys[5] == '?'
        && keys[6] == 'q');
}

/// Settings may be saved only with conflict-free key bindings.
pub fn check_settings(settings: Settings) -> (r: Result<(), StorageError>)
    ensures
        r is Ok <==> conflict_free(settings.bindings),
        r is Err ==> r->Err_0.kind() == StorageErrorKind::InvalidSettings,
{
    if !settings.bindings.is_conflict_free() {
        return Err(StorageError::InvalidSettings);
    }
    Ok(())
}

} // verus!
