//! Text as the Windows interfaces take and give it.

use vstd::prelude::*;

use crate::text::{
    encode_utf16, lemma_text_before_nul, lemma_utf16_is_unique, nul_position, until_nul, utf16,
};

verus! {

/// `String::from_utf16` gives the text that has exactly these UTF-16 units, and fails if no text
/// has them.
#[verifier::external_body]
fn decode_utf16(units: &[u16]) -> (text: Option<String>)
    ensures
        match text {
            Some(text) => utf16(text@) == units@,
            None => forall|other: Seq<char>| #[trigger] utf16(other) != units@,
        },
{
    String::from_utf16(units).ok()
}

/// The units of a text with a NUL behind them.
pub fn wide(value: &str) -> (units: Vec<u16>)
    ensures
        units@ == utf16(value@).push(0),
{
    let mut units = encode_utf16(value);
    units.push(0);
    units
}

/// Why a string could not be read from the registry.
#[derive(Clone, Copy, Debug, PartialEq, Eq, Structural)]
pub enum RegistryError {
    /// The system reported this error.
    System(u32),
    /// The string is not valid UTF-16.
    InvalidText,
}

/// The number of units to reserve for a string of `bytes` bytes, once its size has been asked for.
pub fn registry_buffer(result: u32, bytes: u32) -> (length: Result<usize, RegistryError>)
    ensures
        length == if result == 0 {
            Ok((bytes / 2) as usize)
        } else {
            Err(RegistryError::System(result))
        },
{
    if result != 0 {
        return Err(RegistryError::System(result));
    }
    Ok((bytes / 2) as usize)
}

/// The string that was read from the registry into `buffer`: everything before the first NUL.
pub fn registry_string(result: u32, buffer: &[u16]) -> (text: Result<String, RegistryError>)
    ensures
        match text {
            Ok(text) => result == 0 && utf16(text@) == until_nul(buffer@),
            Err(RegistryError::System(code)) => result != 0 && code == result,
            Err(RegistryError::InvalidText) => result == 0 && forall|other: Seq<char>| #[trigger]
                utf16(other) != until_nul(buffer@),
        },
{
    if result != 0 {
        return Err(RegistryError::System(result));
    }
    let length: usize = nul_position(buffer);
    match decode_utf16(vstd::slice::slice_subrange(buffer, 0, length)) {
        Some(text) => Ok(text),
        None => Err(RegistryError::InvalidText),
    }
}

/// A name without a directory before it.
pub open spec fn is_file_name(name: Seq<char>) -> bool {
    forall|i: int|
        0 <= i < name.len() ==> #[trigger] name[i] != '\\' && name[i] != '/' && name[i] != ':'
}

/// A drive with no directory behind it: a letter and a colon.
pub open spec fn is_drive(path: Seq<u16>) -> bool {
    path.len() == 2 && (0x41 <= path[0] <= 0x5a || 0x61 <= path[0] <= 0x7a) && path[1] == 0x3a
}

/// The path of a file in a directory.  A drive names its current directory, so nothing comes between
/// it and the file.
pub open spec fn joined(directory: Seq<u16>, name: Seq<char>) -> Seq<u16> {
    if directory.last() == 0x5c || directory.last() == 0x2f || is_drive(directory) {
        directory + utf16(name)
    } else {
        directory.push(0x5c) + utf16(name)
    }
}

/// The path of a library of the system.  The system wrote its directory into `buffer` if `length`,
/// which it returned, says that it fits.
pub fn system_dll(buffer: &[u16], length: u32, name: &str) -> (path: Option<Vec<u16>>)
    requires
        is_file_name(name@),
    ensures
        match path {
            Some(path) => 0 < length < buffer@.len() && path@ == joined(
                buffer@.take(length as int),
                name@,
            ),
            None => length == 0 || length >= buffer@.len(),
        },
{
    if length == 0 || length as usize >= buffer.len() {
        return None;
    }
    let mut path: Vec<u16> = Vec::new();
    path.extend_from_slice(vstd::slice::slice_subrange(buffer, 0, length as usize));
    proof {
        assert(path@ =~= buffer@.take(length as int));
    }
    let first: u16 = buffer[0];
    let last: u16 = buffer[length as usize - 1];
    let is_letter = (0x41 <= first && first <= 0x5a) || (0x61 <= first && first <= 0x7a);
    let drive = length == 2 && is_letter && last == 0x3a;
    if last != 0x5c && last != 0x2f && !drive {
        path.push(0x5c);
    }
    let units = encode_utf16(name);
    path.extend_from_slice(units.as_slice());
    Some(path)
}

/// A value has as many units as half of its bytes, and is read up to its first NUL; an error is told as it
/// is.
pub proof fn lemma_values_are_read(
    result: u32,
    bytes: u32,
    length: Result<usize, RegistryError>,
    buffer: &[u16],
    units: Seq<u16>,
    text: Result<String, RegistryError>,
)
    requires
        call_ensures(registry_buffer, (result, bytes), length),
        call_ensures(registry_string, (result, buffer), text),
        units.is_prefix_of(buffer@),
        forall|i: int| 0 <= i < units.len() ==> #[trigger] units[i] != 0,
        units.len() < buffer@.len() ==> buffer@[units.len() as int] == 0,
    ensures
        result != 0 ==> length == Err::<usize, RegistryError>(RegistryError::System(result)),
        result != 0 ==> text is Err && text->Err_0 == RegistryError::System(result),
        result == 0 ==> length is Ok && 2 * length->Ok_0 <= bytes < 2 * length->Ok_0 + 2,
        result == 0 ==> (text matches Ok(text) ==> utf16(text@) == units),
        result == 0 && text is Err ==> text->Err_0 is InvalidText && forall|other: Seq<char>| #[trigger]
            utf16(other) != units,
{
    lemma_text_before_nul(buffer@, units);
}

/// A text that is written to the system is read back from it.
pub proof fn lemma_text_is_read_back(
    value: &str,
    units: Vec<u16>,
    buffer: &[u16],
    text: Result<String, RegistryError>,
)
    requires
        call_ensures(wide, (value,), units),
        buffer@ == units@,
        forall|i: int| 0 <= i < utf16(value@).len() ==> #[trigger] utf16(value@)[i] != 0,
        call_ensures(registry_string, (0u32, buffer), text),
    ensures
        text is Ok && text->Ok_0@ == value@,
{
    let encoded = utf16(value@);
    assert(encoded =~= buffer@.subrange(0, encoded.len() as int));
    lemma_text_before_nul(buffer@, encoded);
    if let Ok(text) = text {
        lemma_utf16_is_unique(text@, value@);
    }
}

/// The path of a library is the directory and its name, with a backslash between them unless the directory
/// ends in a slash of either kind or is a bare drive; a directory that did not fit gives none.
pub proof fn lemma_library_is_in_its_directory(
    buffer: &[u16],
    length: u32,
    name: &str,
    path: Option<Vec<u16>>,
)
    requires
        forall|i: int|
            0 <= i < name@.len() ==> #[trigger] name@[i] != '\\' && name@[i] != '/' && name@[i] != ':',
        call_ensures(system_dll, (buffer, length, name), path),
    ensures
        path is Some <==> 0 < length && length < buffer@.len(),
        path matches Some(path) ==> {
            let last = buffer@[length - 1];
            let drive = length == 2 && last == 58 && (65 <= buffer@[0] <= 90 || 97 <= buffer@[0] <= 122);
            &&& path@.take(length as int) == buffer@.take(length as int)
            &&& last == 92 || last == 47 || drive ==> path@.skip(length as int) == utf16(name@)
            &&& last != 92 && last != 47 && !drive ==> path@[length as int] == 92 && path@.skip(
                length + 1,
            ) == utf16(name@)
        },
{
    if let Some(path) = path {
        let directory = buffer@.take(length as int);
        assert(directory.last() == buffer@[length - 1]);
        assert(path@.take(length as int) =~= directory);
        if directory.last() == 0x5c || directory.last() == 0x2f || is_drive(directory) {
            assert(path@.skip(length as int) =~= utf16(name@));
        } else {
            assert(path@.skip(length + 1) =~= utf16(name@));
        }
    }
}

} // verus!
