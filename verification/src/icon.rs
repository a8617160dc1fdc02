//! The program's icon: choosing an image of it, and putting it into a resource of the program.

use vstd::prelude::*;

use crate::bytes::{
    le16, le16_bytes, le32, le32_bytes, lemma_numbers_are_little_endian, little_endian, push_u16,
    push_u32, read_u16, read_u32,
};

verus! {

/// The kind of resource that holds an image.
pub const RT_ICON: u16 = 3;

/// The kind of resource that lists the images.
pub const RT_GROUP_ICON: u16 = 14;

/// The language of the resources.
pub const LANGUAGE_EN_US: u16 = 0x0409;

/// Why an icon cannot be used.
#[derive(Clone, Copy, Debug, PartialEq, Eq, Structural)]
pub enum IconError {
    /// The file is too short.
    Header,
    /// The first number is not zero.
    Reserved,
    /// The file is not an icon.
    NotAnIcon,
    /// The file has no images.
    NoImages,
    /// The list of images is cut off.
    TruncatedDirectory,
    /// An image is cut off.
    TruncatedImage,
}

/// Where an image is described.
pub open spec fn entry_at(index: int) -> int {
    6 + index * 16
}

/// The number of images.
pub open spec fn image_count(icon: Seq<u8>) -> int {
    le16(icon, 4)
}

/// An image lies within the file.
pub open spec fn image_fits(icon: Seq<u8>, index: int) -> bool {
    le32(icon, entry_at(index) + 12) + le32(icon, entry_at(index) + 8) <= icon.len()
}

/// An image.
pub open spec fn image_data(icon: Seq<u8>, index: int) -> Seq<u8> {
    let offset = le32(icon, entry_at(index) + 12);
    icon.subrange(offset, offset + le32(icon, entry_at(index) + 8))
}

/// What is wrong with an icon.
pub open spec fn icon_error(icon: Seq<u8>) -> Option<IconError> {
    if icon.len() < 6 {
        Some(IconError::Header)
    } else if le16(icon, 0) != 0 {
        Some(IconError::Reserved)
    } else if le16(icon, 2) != 1 {
        Some(IconError::NotAnIcon)
    } else if image_count(icon) == 0 {
        Some(IconError::NoImages)
    } else if icon.len() < entry_at(image_count(icon)) {
        Some(IconError::TruncatedDirectory)
    } else if exists|index: int|
        0 <= index < image_count(icon) && !#[trigger] image_fits(icon, index) {
        Some(IconError::TruncatedImage)
    } else {
        None
    }
}

/// The number of zeros after a text of this length that bring it to a multiple of four.
pub open spec fn padding(length: int) -> int {
    (4 - length % 4) % 4
}

/// `output`, brought to a multiple of four.
pub open spec fn padded(output: Seq<u8>) -> Seq<u8> {
    output + Seq::new(padding(output.len() as int) as nat, |i: int| 0u8)
}

/// The empty resource that a file begins with.
pub open spec fn null_resource() -> Seq<u8> {
    le32_bytes(0) + le32_bytes(32) + le16_bytes(0xffff) + le16_bytes(0) + le16_bytes(0xffff)
        + le16_bytes(0) + Seq::new(16, |i: int| 0u8)
}

/// The description of a resource.
pub open spec fn resource_header(resource_type: int, name: int, language: int, length: int) -> Seq<
    u8,
> {
    le32_bytes(length) + le32_bytes(32) + le16_bytes(0xffff) + le16_bytes(resource_type)
        + le16_bytes(0xffff) + le16_bytes(name) + le32_bytes(0) + le16_bytes(0x0030) + le16_bytes(
        language,
    ) + le32_bytes(0) + le32_bytes(0)
}

/// `output` and a resource after it, both brought to a multiple of four.
pub open spec fn with_resource(
    output: Seq<u8>,
    resource_type: int,
    name: int,
    language: int,
    data: Seq<u8>,
) -> Seq<u8> {
    padded(
        padded(output) + resource_header(resource_type, name, language, data.len() as int) + data,
    )
}

/// The first images as resources.
pub open spec fn image_resources(icon: Seq<u8>, count: nat) -> Seq<u8>
    decreases count,
{
    if count == 0 {
        null_resource()
    } else {
        with_resource(
            image_resources(icon, (count - 1) as nat),
            RT_ICON as int,
            count as int,
            LANGUAGE_EN_US as int,
            image_data(icon, count - 1),
        )
    }
}

/// The list of the first images.
pub open spec fn group(icon: Seq<u8>, count: nat) -> Seq<u8>
    decreases count,
{
    if count == 0 {
        le16_bytes(0) + le16_bytes(1) + le16_bytes(image_count(icon))
    } else {
        group(icon, (count - 1) as nat) + icon.subrange(
            entry_at(count - 1),
            entry_at(count - 1) + 12,
        ) + le16_bytes(count as int)
    }
}

fn pad_to_dword(output: &mut Vec<u8>)
    ensures
        final(output)@ == padded(old(output)@),
{
    let ghost before = output@;
    let missing: usize = (4 - output.len() % 4) % 4;
    let mut i: usize = 0;
    while i < missing
        invariant
            missing == padding(before.len() as int),
            i <= missing,
            output@ == before + Seq::new(i as nat, |j: int| 0u8),
        decreases missing - i,
    {
        output.push(0);
        i = i + 1;
        proof {
            assert(output@ =~= before + Seq::new(i as nat, |j: int| 0u8));
        }
    }
}

fn write_null_resource(output: &mut Vec<u8>)
    ensures
        final(output)@ == old(output)@ + null_resource(),
{
    let ghost before = output@;
    push_u32(output, 0);
    push_u32(output, 32);
    push_u16(output, 0xffff);
    push_u16(output, 0);
    push_u16(output, 0xffff);
    push_u16(output, 0);
    output.extend_from_slice(&[0; 16]);
    proof {
        assert(output@ =~= before + null_resource());
    }
}

fn write_resource(output: &mut Vec<u8>, resource_type: u16, name: u16, language: u16, data: &[u8])
    requires
        data@.len() <= u32::MAX,
    ensures
        final(output)@ == with_resource(
            old(output)@,
            resource_type as int,
            name as int,
            language as int,
            data@,
        ),
{
    pad_to_dword(output);
    let ghost before = output@;
    push_u32(output, data.len() as u32);
    push_u32(output, 32);
    push_u16(output, 0xffff);
    push_u16(output, resource_type);
    push_u16(output, 0xffff);
    push_u16(output, name);
    push_u32(output, 0);
    push_u16(output, 0x0030);
    push_u16(output, language);
    push_u32(output, 0);
    push_u32(output, 0);
    proof {
        assert(output@ =~= before + resource_header(
            resource_type as int,
            name as int,
            language as int,
            data@.len() as int,
        ));
    }
    output.extend_from_slice(data);
    pad_to_dword(output);
}

fn append_range(output: &mut Vec<u8>, data: &[u8], start: usize, end: usize)
    requires
        start <= end <= data@.len(),
    ensures
        final(output)@ == old(output)@ + data@.subrange(start as int, end as int),
{
    let ghost before = output@;
    let mut i: usize = start;
    while i < end
        invariant
            start <= i <= end <= data@.len(),
            output@ == before + data@.subrange(start as int, i as int),
        decreases end - i,
    {
        output.push(data[i]);
        i = i + 1;
        proof {
            assert(output@ =~= before + data@.subrange(start as int, i as int));
        }
    }
}

fn check_directory(icon: &[u8]) -> (result: Result<usize, IconError>)
    ensures
        result matches Err(error) ==> icon_error(icon@) == Some(error),
        result matches Ok(count) ==> {
            &&& count == image_count(icon@)
            &&& 0 < count <= 0xffff
            &&& entry_at(count as int) <= icon@.len()
            &&& (icon_error(icon@) is None || icon_error(icon@) == Some(IconError::TruncatedImage))
        },
{
    if icon.len() < 6 {
        return Err(IconError::Header);
    }
    if read_u16(icon, 0) != 0 {
        return Err(IconError::Reserved);
    }
    if read_u16(icon, 2) != 1 {
        return Err(IconError::NotAnIcon);
    }
    let count: usize = read_u16(icon, 4) as usize;
    if count == 0 {
        return Err(IconError::NoImages);
    }
    if icon.len() < 6 + count * 16 {
        return Err(IconError::TruncatedDirectory);
    }
    Ok(count)
}

/// Turns an icon into the resources that the program's file carries: its images, numbered from one,
/// and the list of them.
pub fn icon_resource(icon: &[u8]) -> (result: Result<Vec<u8>, IconError>)
    ensures
        result matches Err(error) ==> icon_error(icon@) == Some(error),
        result matches Ok(output) ==> icon_error(icon@) is None && output@ == with_resource(
            image_resources(icon@, image_count(icon@) as nat),
            RT_GROUP_ICON as int,
            1,
            LANGUAGE_EN_US as int,
            group(icon@, image_count(icon@) as nat),
        ),
{
    let count: usize = match check_directory(icon) {
        Err(error) => return Err(error),
        Ok(count) => count,
    };
    let mut output: Vec<u8> = Vec::new();
    write_null_resource(&mut output);
    let mut list: Vec<u8> = Vec::new();
    push_u16(&mut list, 0);
    push_u16(&mut list, 1);
    push_u16(&mut list, count as u16);
    proof {
        assert(output@ =~= image_resources(icon@, 0));
        assert(list@ =~= group(icon@, 0));
    }
    let mut index: usize = 0;
    while index < count
        invariant
            index <= count,
            count == image_count(icon@),
            count <= 0xffff,
            entry_at(count as int) <= icon.len(),
            icon_error(icon@) is None || icon_error(icon@) == Some(IconError::TruncatedImage),
            forall|earlier: int| 0 <= earlier < index ==> image_fits(icon@, earlier),
            output@ == image_resources(icon@, index as nat),
            list@ == group(icon@, index as nat),
            list@.len() == 6 + 14 * index,
        decreases count - index,
    {
        let entry: usize = 6 + index * 16;
        let size: u32 = read_u32(icon, entry + 8);
        let offset: u32 = read_u32(icon, entry + 12);
        let end: u64 = offset as u64 + size as u64;
        if end > icon.len() as u64 {
            proof {
                assert(!image_fits(icon@, index as int));
            }
            return Err(IconError::TruncatedImage);
        }
        let mut data: Vec<u8> = Vec::new();
        append_range(&mut data, icon, offset as usize, end as usize);
        proof {
            assert(data@ =~= image_data(icon@, index as int));
        }
        let id: u16 = (index + 1) as u16;
        write_resource(&mut output, RT_ICON, id, LANGUAGE_EN_US, data.as_slice());
        append_range(&mut list, icon, entry, entry + 12);
        push_u16(&mut list, id);
        index = index + 1;
    }
    write_resource(&mut output, RT_GROUP_ICON, 1, LANGUAGE_EN_US, list.as_slice());
    Ok(output)
}

/// An image is described as one of 32 by 32 pixels.
pub open spec fn is_tray_size(icon: Seq<u8>, index: int) -> bool {
    icon[entry_at(index)] == 32 && icon[entry_at(index) + 1] == 32
}

/// The image that the notification area shows: the first of 32 by 32 pixels, and if there is none,
/// the first.
pub open spec fn is_chosen(icon: Seq<u8>, chosen: int) -> bool {
    if exists|index: int| 0 <= index < image_count(icon) && #[trigger] is_tray_size(icon, index) {
        &&& 0 <= chosen < image_count(icon)
        &&& is_tray_size(icon, chosen)
        &&& forall|index: int| 0 <= index < chosen ==> !#[trigger] is_tray_size(icon, index)
    } else {
        chosen == 0
    }
}

/// All images are described, and there is room for one.
pub open spec fn has_directory(icon: Seq<u8>) -> bool {
    icon.len() >= 22 && icon.len() >= entry_at(image_count(icon))
}

/// Finds the image that the notification area shows: where its data starts and how long it is.
/// Nothing is found if the list of images is cut off, or if the data starts behind the end.
pub fn load_application_icon(icon: &[u8]) -> (image: Option<(usize, u32)>)
    ensures
        !has_directory(icon@) ==> image is None,
        has_directory(icon@) ==> exists|chosen: int| #[trigger]
            is_chosen(icon@, chosen) && match image {
                Some((offset, size)) => {
                    &&& offset == le32(icon@, entry_at(chosen) + 12)
                    &&& offset <= icon@.len()
                    &&& size == le32(icon@, entry_at(chosen) + 8)
                },
                None => le32(icon@, entry_at(chosen) + 12) > icon@.len(),
            },
{
    if icon.len() < 22 {
        return None;
    }
    let count: usize = read_u16(icon, 4) as usize;
    if icon.len() < 6 + count * 16 {
        return None;
    }
    let mut found: usize = 0;
    let mut index: usize = 0;
    while index < count
        invariant_except_break
            index <= count,
            found == 0,
            forall|earlier: int| 0 <= earlier < index ==> !#[trigger] is_tray_size(icon@, earlier),
        invariant
            count == image_count(icon@),
            count <= 0xffff,
            entry_at(count as int) <= icon.len(),
        ensures
            is_chosen(icon@, found as int),
            found < count || found == 0,
        decreases count - index,
    {
        if icon[6 + index * 16] == 32 && icon[6 + index * 16 + 1] == 32 {
            found = index;
            proof {
                assert(is_tray_size(icon@, index as int));
            }
            break;
        }
        index = index + 1;
    }
    let entry: usize = 6 + found * 16;
    let size: u32 = read_u32(icon, entry + 8);
    let offset: u32 = read_u32(icon, entry + 12);
    if offset as u64 > icon.len() as u64 {
        return None;
    }
    Some((offset as usize, size))
}

/// A file of resources is a multiple of four bytes long.
pub proof fn lemma_resources_are_aligned(
    output: Seq<u8>,
    resource_type: int,
    name: int,
    language: int,
    data: Seq<u8>,
)
    ensures
        with_resource(output, resource_type, name, language, data).len() % 4 == 0,
        padded(output).len() % 4 == 0,
{
}

/// A file is refused as an icon for the first of its faults: it is too short for its header, does not begin
/// with zero and one, has no images, or too few bytes for its list of sixteen bytes each, or for one of
/// its images.
pub proof fn lemma_damaged_icons_are_refused(
    icon: &[u8],
    result: Result<Vec<u8>, IconError>,
    index: int,
)
    requires
        call_ensures(icon_resource, (icon,), result),
    ensures
        icon@.len() < 6 ==> result is Err && result->Err_0 is Header,
        icon@.len() >= 6 ==> {
            let reserved = little_endian(icon@, 0, 2);
            let kind = little_endian(icon@, 2, 2);
            let count = little_endian(icon@, 4, 2);
            &&& reserved != 0 ==> result is Err && result->Err_0 is Reserved
            &&& reserved == 0 && kind != 1 ==> result is Err && result->Err_0 is NotAnIcon
            &&& reserved == 0 && kind == 1 && count == 0 ==> result is Err && result->Err_0 is NoImages
            &&& reserved == 0 && kind == 1 && count > 0 && icon@.len() < 6 + 16 * count
                ==> result is Err && result->Err_0 is TruncatedDirectory
            &&& reserved == 0 && kind == 1 && 0 <= index < count && icon@.len() >= 6 + 16 * count
                && little_endian(icon@, 6 + 16 * index + 8, 4) + little_endian(
                icon@,
                6 + 16 * index + 12,
                4,
            ) > icon@.len() ==> result is Err && result->Err_0 is TruncatedImage
            &&& result is Ok ==> reserved == 0 && kind == 1 && count > 0 && icon@.len() >= 6 + 16 * count
        },
{
    if icon@.len() >= 6 {
        lemma_numbers_are_little_endian(icon@, 0);
        lemma_numbers_are_little_endian(icon@, 2);
        lemma_numbers_are_little_endian(icon@, 4);
        lemma_numbers_are_little_endian(icon@, 6 + 16 * index + 8);
        lemma_numbers_are_little_endian(icon@, 6 + 16 * index + 12);
        assert(entry_at(index) == 6 + 16 * index);
        assert(entry_at(image_count(icon@)) == 6 + 16 * image_count(icon@));
        let fits = image_fits(icon@, index);
    }
}

/// Where the resource of an image begins: each takes 32 bytes and its own size, made a multiple of four.
pub open spec fn resource_at(icon: Seq<u8>, index: int) -> int
    decreases index,
{
    if index <= 0 {
        32
    } else {
        resource_at(icon, index - 1) + 32 + (little_endian(icon, 16 * index - 2, 4) + 3) / 4 * 4
    }
}

/// `output` holds the head of a resource at `start`: its size, the size of the head, its kind and its
/// number, and the language of the United States.
#[verifier::opaque]
pub open spec fn has_resource_head(
    output: Seq<u8>,
    start: int,
    size: int,
    kind: int,
    number: int,
) -> bool {
    &&& little_endian(output, start, 4) == size
    &&& little_endian(output, start + 4, 4) == 32
    &&& little_endian(output, start + 8, 2) == 0xffff
    &&& little_endian(output, start + 10, 2) == kind
    &&& little_endian(output, start + 12, 2) == 0xffff
    &&& little_endian(output, start + 14, 2) == number
    &&& little_endian(output, start + 16, 4) == 0
    &&& little_endian(output, start + 20, 2) == 0x30
    &&& little_endian(output, start + 22, 2) == 0x409
    &&& little_endian(output, start + 24, 4) == 0
    &&& little_endian(output, start + 28, 4) == 0
}

proof fn lemma_number_inside(whole: Seq<u8>, part: Seq<u8>, start: int, offset: int, count: nat)
    requires
        forall|i: int| offset <= i < offset + count ==> whole[start + i] == #[trigger] part[i],
    ensures
        little_endian(whole, start + offset, count) == little_endian(part, offset, count),
    decreases count,
{
    if count > 0 {
        assert(whole[start + offset] == part[offset]);
        lemma_number_inside(whole, part, start, offset + 1, (count - 1) as nat);
    }
}

proof fn lemma_head(output: Seq<u8>, start: int, size: int, kind: int, number: int)
    requires
        0 <= size < 0x1_0000_0000,
        0 <= kind < 0x1_0000,
        0 <= number < 0x1_0000,
        forall|i: int|
            0 <= i < 32 ==> output[start + i] == #[trigger] resource_header(kind, number, 0x409, size)[i],
    ensures
        has_resource_head(output, start, size, kind, number),
        resource_header(kind, number, 0x409, size).len() == 32,
{
    reveal(has_resource_head);
    let head = resource_header(kind, number, 0x409, size);
    assert(head.len() == 32);
    lemma_numbers_are_little_endian(head, 0);
    lemma_numbers_are_little_endian(head, 4);
    lemma_numbers_are_little_endian(head, 8);
    lemma_numbers_are_little_endian(head, 10);
    lemma_numbers_are_little_endian(head, 12);
    lemma_numbers_are_little_endian(head, 14);
    lemma_numbers_are_little_endian(head, 16);
    lemma_numbers_are_little_endian(head, 20);
    lemma_numbers_are_little_endian(head, 22);
    lemma_numbers_are_little_endian(head, 24);
    lemma_numbers_are_little_endian(head, 28);
    lemma_number_inside(output, head, start, 0, 4);
    lemma_number_inside(output, head, start, 4, 4);
    lemma_number_inside(output, head, start, 8, 2);
    lemma_number_inside(output, head, start, 10, 2);
    lemma_number_inside(output, head, start, 12, 2);
    lemma_number_inside(output, head, start, 14, 2);
    lemma_number_inside(output, head, start, 16, 4);
    lemma_number_inside(output, head, start, 20, 2);
    lemma_number_inside(output, head, start, 22, 2);
    lemma_number_inside(output, head, start, 24, 4);
    lemma_number_inside(output, head, start, 28, 4);
}

/// `after` holds a resource behind `before`.
#[verifier::opaque]
spec fn is_put(before: Seq<u8>, after: Seq<u8>, kind: int, number: int, data: Seq<u8>) -> bool {
    let start = before.len() as int;
    &&& after.len() == start + 32 + (data.len() as int + 3) / 4 * 4
    &&& after.len() % 4 == 0
    &&& forall|i: int| 0 <= i < start ==> #[trigger] after[i] == before[i]
    &&& has_resource_head(after, start, data.len() as int, kind, number)
    &&& forall|i: int| 0 <= i < data.len() ==> after[start + 32 + i] == #[trigger] data[i]
}

/// A resource that is put behind others, where a multiple of four bytes is.
#[verifier::rlimit(40)]
proof fn lemma_resource_is_put(before: Seq<u8>, kind: int, number: int, data: Seq<u8>)
    requires
        before.len() % 4 == 0,
        data.len() < 0x1_0000_0000,
        0 <= kind < 0x1_0000,
        0 <= number < 0x1_0000,
    ensures
        is_put(before, with_resource(before, kind, number, 0x409, data), kind, number, data),
        with_resource(before, kind, number, 0x409, data).len() == before.len() + 32 + (data.len() as int
            + 3) / 4 * 4,
{
    reveal(is_put);
    let after = with_resource(before, kind, number, 0x409, data);
    let start = before.len() as int;
    let head = resource_header(kind, number, 0x409, data.len() as int);
    assert(padded(before) =~= before);
    assert(head.len() == 32);
    let filled = before + head + data;
    assert(after == padded(filled));
    assert forall|i: int| 0 <= i < 32 implies after[start + i] == #[trigger] head[i] by {
        assert(after[start + i] == filled[start + i]);
    }
    lemma_head(after, start, data.len() as int, kind, number);
    assert forall|i: int| 0 <= i < start implies #[trigger] after[i] == before[i] by {
        assert(after[i] == filled[i]);
    }
    assert forall|i: int| 0 <= i < data.len() implies after[start + 32 + i] == #[trigger] data[i] by {
        assert(after[start + 32 + i] == filled[start + 32 + i]);
    }
}

proof fn lemma_images_are_put(icon: Seq<u8>, count: int)
    requires
        0 <= count <= image_count(icon),
        icon_error(icon) is None,
        icon.len() >= 6,
    ensures
        image_resources(icon, count as nat).len() == resource_at(icon, count),
        resource_at(icon, count) % 4 == 0,
        resource_at(icon, count) >= 32,
    decreases count,
{
    reveal(is_put);
    if count > 0 {
        lemma_images_are_put(icon, count - 1);
        lemma_image(icon, count - 1);
        lemma_resource_is_put(
            image_resources(icon, (count - 1) as nat),
            3,
            count,
            image_data(icon, count - 1),
        );
    }
}

/// The bytes of an image, by the numbers in its entry.
proof fn lemma_image(icon: Seq<u8>, index: int)
    requires
        0 <= index < image_count(icon),
        icon_error(icon) is None,
    ensures
        ({
            let size = little_endian(icon, 16 * (index + 1) - 2, 4);
            let offset = little_endian(icon, 16 * (index + 1) + 2, 4);
            &&& 0 <= size < 0x1_0000_0000
            &&& 0 <= offset
            &&& offset + size <= icon.len()
            &&& image_data(icon, index) == icon.subrange(offset, offset + size)
            &&& image_data(icon, index).len() == size
        }),
        0 <= image_count(icon) < 0x1_0000,
{
    lemma_numbers_are_little_endian(icon, 4);
    lemma_numbers_are_little_endian(icon, 16 * (index + 1) - 2);
    lemma_numbers_are_little_endian(icon, 16 * (index + 1) + 2);
    assert(entry_at(index) + 8 == 16 * (index + 1) - 2);
    assert(entry_at(index) + 12 == 16 * (index + 1) + 2);
    assert(image_fits(icon, index));
}

proof fn lemma_images_stay(icon: Seq<u8>, fewer: int, count: int, i: int)
    requires
        0 <= fewer <= count <= image_count(icon),
        icon_error(icon) is None,
        icon.len() >= 6,
        0 <= i < resource_at(icon, fewer),
    ensures
        image_resources(icon, count as nat)[i] == image_resources(icon, fewer as nat)[i],
        resource_at(icon, fewer) <= resource_at(icon, count),
    decreases count,
{
    reveal(is_put);
    if fewer < count {
        lemma_images_stay(icon, fewer, count - 1, i);
        lemma_images_are_put(icon, count - 1);
        lemma_image(icon, count - 1);
        lemma_resource_is_put(
            image_resources(icon, (count - 1) as nat),
            3,
            count,
            image_data(icon, count - 1),
        );
    }
}

/// The group lists the images: zero, one and their number, and for each of them the first twelve bytes of
/// its entry and its number.
proof fn lemma_group(icon: Seq<u8>, count: int, index: int, i: int)
    requires
        0 <= count <= image_count(icon),
        image_count(icon) < 0x1_0000,
        6 + 16 * image_count(icon) <= icon.len(),
    ensures
        group(icon, count as nat).len() == 6 + 14 * count,
        little_endian(group(icon, count as nat), 0, 2) == 0,
        little_endian(group(icon, count as nat), 2, 2) == 1,
        little_endian(group(icon, count as nat), 4, 2) == image_count(icon),
        0 <= index < count && 0 <= i < 12 ==> group(icon, count as nat)[6 + 14 * index + i] == icon[6 + 16
            * index + i],
        0 <= index < count ==> little_endian(group(icon, count as nat), 18 + 14 * index, 2) == index + 1,
    decreases count,
{
    lemma_numbers_are_little_endian(icon, 4);
    let all = group(icon, count as nat);
    if count == 0 {
        lemma_numbers_are_little_endian(all, 0);
        lemma_numbers_are_little_endian(all, 2);
        lemma_numbers_are_little_endian(all, 4);
    } else {
        lemma_group(icon, count - 1, index, i);
        let fewer = group(icon, (count - 1) as nat);
        let entry = icon.subrange(entry_at(count - 1), entry_at(count - 1) + 12);
        assert(entry.len() == 12);
        assert(all == fewer + entry + le16_bytes(count));
        assert(forall|j: int| 0 <= j < fewer.len() ==> all[0 + j] == #[trigger] fewer[j]);
        lemma_number_inside(all, fewer, 0, 0, 2);
        lemma_number_inside(all, fewer, 0, 2, 2);
        lemma_number_inside(all, fewer, 0, 4, 2);
        if 0 <= index < count - 1 {
            lemma_number_inside(all, fewer, 0, 18 + 14 * index, 2);
        } else if index == count - 1 {
            lemma_numbers_are_little_endian(all, 18 + 14 * index);
            assert(all[18 + 14 * index] == le16_bytes(count)[0]);
            assert(all[18 + 14 * index + 1] == le16_bytes(count)[1]);
            if 0 <= i < 12 {
                assert(all[6 + 14 * index + i] == entry[i]);
            }
        }
    }
}

proof fn lemma_head_inside(
    whole: Seq<u8>,
    part: Seq<u8>,
    start: int,
    size: int,
    kind: int,
    number: int,
)
    requires
        0 <= start,
        forall|i: int| start <= i < start + 32 ==> whole[0 + i] == #[trigger] part[i],
        has_resource_head(part, start, size, kind, number),
    ensures
        has_resource_head(whole, start, size, kind, number),
{
    reveal(has_resource_head);
    lemma_number_inside(whole, part, 0, start, 4);
    lemma_number_inside(whole, part, 0, start + 4, 4);
    lemma_number_inside(whole, part, 0, start + 8, 2);
    lemma_number_inside(whole, part, 0, start + 10, 2);
    lemma_number_inside(whole, part, 0, start + 12, 2);
    lemma_number_inside(whole, part, 0, start + 14, 2);
    lemma_number_inside(whole, part, 0, start + 16, 4);
    lemma_number_inside(whole, part, 0, start + 20, 2);
    lemma_number_inside(whole, part, 0, start + 22, 2);
    lemma_number_inside(whole, part, 0, start + 24, 4);
    lemma_number_inside(whole, part, 0, start + 28, 4);
}

proof fn lemma_written_list(
    written: Seq<u8>,
    images: Seq<u8>,
    listed: Seq<u8>,
    list: int,
    index: int,
    i: int,
)
    requires
        is_put(images, written, 14, 1, listed),
        images.len() == list,
        0 <= index,
        0 <= i < 12,
        20 + 14 * index <= listed.len(),
    ensures
        has_resource_head(written, list, listed.len() as int, 14, 1),
        forall|j: int| 0 <= j < list ==> #[trigger] written[j] == images[j],
        little_endian(written, list + 32, 2) == little_endian(listed, 0, 2),
        little_endian(written, list + 34, 2) == little_endian(listed, 2, 2),
        little_endian(written, list + 36, 2) == little_endian(listed, 4, 2),
        written[list + 38 + 14 * index + i] == listed[6 + 14 * index + i],
        little_endian(written, list + 50 + 14 * index, 2) == little_endian(listed, 18 + 14 * index, 2),
{
    reveal(is_put);
    assert forall|j: int| 0 <= j < listed.len() implies written[(list + 32) + j]
        == #[trigger] listed[j] by {
        assert(written[list + 32 + j] == listed[j]);
    }
    lemma_number_inside(written, listed, list + 32, 0, 2);
    lemma_number_inside(written, listed, list + 32, 2, 2);
    lemma_number_inside(written, listed, list + 32, 4, 2);
    lemma_number_inside(written, listed, list + 32, 18 + 14 * index, 2);
    assert(written[(list + 32) + (6 + 14 * index + i)] == listed[6 + 14 * index + i]);
}

proof fn lemma_written_start(written: Seq<u8>, i: int)
    requires
        forall|j: int| 0 <= j < 32 ==> written[0 + j] == #[trigger] null_resource()[j],
    ensures
        little_endian(written, 0, 4) == 0,
        little_endian(written, 4, 4) == 32,
        little_endian(written, 8, 2) == 0xffff,
        little_endian(written, 10, 2) == 0,
        little_endian(written, 12, 2) == 0xffff,
        14 <= i < 32 ==> written[i] == 0,
{
    let none = null_resource();
    assert(none.len() == 32);
    lemma_numbers_are_little_endian(none, 0);
    lemma_numbers_are_little_endian(none, 4);
    lemma_numbers_are_little_endian(none, 8);
    lemma_numbers_are_little_endian(none, 10);
    lemma_numbers_are_little_endian(none, 12);
    lemma_number_inside(written, none, 0, 0, 4);
    lemma_number_inside(written, none, 0, 4, 4);
    lemma_number_inside(written, none, 0, 8, 2);
    lemma_number_inside(written, none, 0, 10, 2);
    lemma_number_inside(written, none, 0, 12, 2);
    if 14 <= i < 32 {
        assert(written[0 + i] == none[i]);
    }
}

#[verifier::rlimit(40)]
proof fn lemma_written_image(data: Seq<u8>, index: int, count: int, written: Seq<u8>, i: int)
    requires
        data.len() >= 6,
        icon_error(data) is None,
        0 <= index < count,
        count == image_count(data),
        forall|j: int|
            0 <= j < resource_at(data, count) ==> #[trigger] written[j] == image_resources(
                data,
                count as nat,
            )[j],
        0 <= i,
    ensures
        ({
            let size = little_endian(data, 16 * (index + 1) - 2, 4);
            let offset = little_endian(data, 16 * (index + 1) + 2, 4);
            let start = resource_at(data, index);
            &&& has_resource_head(written, start, size, 3, index + 1)
            &&& i < size ==> written[start + 32 + i] == data[offset + i]
        }),
{
    lemma_images_are_put(data, index);
    lemma_images_are_put(data, index + 1);
    lemma_image(data, index);
    let before = image_resources(data, index as nat);
    let here = image_resources(data, (index + 1) as nat);
    let picture = image_data(data, index);
    lemma_resource_is_put(before, 3, index + 1, picture);
    assert(is_put(before, here, 3, index + 1, picture));
    lemma_images_are_kept(data, index + 1, count, written);
    lemma_picture_inside(before, here, written, picture, index + 1, i);
}

/// What is put for the first images stays in front of what follows.
proof fn lemma_images_are_kept(data: Seq<u8>, fewer: int, count: int, written: Seq<u8>)
    requires
        data.len() >= 6,
        icon_error(data) is None,
        0 <= fewer <= count,
        count == image_count(data),
        forall|j: int|
            0 <= j < resource_at(data, count) ==> #[trigger] written[j] == image_resources(
                data,
                count as nat,
            )[j],
    ensures
        forall|j: int|
            0 <= j < resource_at(data, fewer) ==> written[0 + j] == #[trigger] image_resources(
                data,
                fewer as nat,
            )[j],
{
    assert forall|j: int| 0 <= j < resource_at(data, fewer) implies written[0 + j]
        == #[trigger] image_resources(data, fewer as nat)[j] by {
        lemma_images_stay(data, fewer, count, j);
        assert(written[j] == image_resources(data, count as nat)[j]);
    }
}

proof fn lemma_picture_inside(
    before: Seq<u8>,
    here: Seq<u8>,
    written: Seq<u8>,
    picture: Seq<u8>,
    number: int,
    i: int,
)
    requires
        is_put(before, here, 3, number, picture),
        forall|j: int| 0 <= j < here.len() ==> written[0 + j] == #[trigger] here[j],
        0 <= i,
    ensures
        has_resource_head(written, before.len() as int, picture.len() as int, 3, number),
        i < picture.len() ==> written[before.len() + 32 + i] == picture[i],
{
    reveal(is_put);
    let start = before.len() as int;
    lemma_head_inside(written, here, start, picture.len() as int, 3, number);
    if i < picture.len() {
        assert(here[start + 32 + i] == picture[i]);
        assert(written[0 + (start + 32 + i)] == here[start + 32 + i]);
    }
}

/// The file of resources begins with 32 bytes that are no resource.  Then comes each image, as a resource
/// of kind 3 with its number from one on, and at last the list of them, of kind 14, which holds the first
/// twelve bytes of each entry, and the number of its image in place of where it stands in the file.
#[verifier::rlimit(40)]
pub proof fn lemma_icon_becomes_resources(
    icon: &[u8],
    output: Vec<u8>,
    index: int,
    i: int,
    result: Result<Vec<u8>, IconError>,
)
    requires
        call_ensures(icon_resource, (icon,), result),
        result == Ok::<Vec<u8>, IconError>(output),
        0 <= index < little_endian(icon@, 4, 2),
        0 <= i,
    ensures
        ({
            let count = little_endian(icon@, 4, 2);
            let size = little_endian(icon@, 16 * (index + 1) - 2, 4);
            let offset = little_endian(icon@, 16 * (index + 1) + 2, 4);
            let start = resource_at(icon@, index);
            let list = resource_at(icon@, count);
            &&& output@.len() == list + 32 + (6 + 14 * count + 3) / 4 * 4
            &&& little_endian(output@, 0, 4) == 0
            &&& little_endian(output@, 4, 4) == 32
            &&& little_endian(output@, 8, 2) == 0xffff
            &&& little_endian(output@, 10, 2) == 0
            &&& little_endian(output@, 12, 2) == 0xffff
            &&& 14 <= i < 32 ==> output@[i] == 0
            &&& has_resource_head(output@, start, size, 3, index + 1)
            &&& i < size ==> output@[start + 32 + i] == icon@[offset + i]
            &&& has_resource_head(output@, list, 6 + 14 * count, 14, 1)
            &&& little_endian(output@, list + 32, 2) == 0
            &&& little_endian(output@, list + 34, 2) == 1
            &&& little_endian(output@, list + 36, 2) == count
            &&& i < 12 ==> output@[list + 38 + 14 * index + i] == icon@[6 + 16 * index + i]
            &&& little_endian(output@, list + 50 + 14 * index, 2) == index + 1
        }),
{
    let data = icon@;
    let count = image_count(data);
    lemma_numbers_are_little_endian(data, 4);
    assert(entry_at(count) == 6 + 16 * count);
    lemma_icon_is_written(data, output@, index, i);
    lemma_listed(data, output@, index, i);
}

/// What is put for an icon is its images and the list of them.
#[verifier::rlimit(40)]
proof fn lemma_icon_is_written(data: Seq<u8>, written: Seq<u8>, index: int, i: int)
    requires
        data.len() >= 6,
        icon_error(data) is None,
        0 <= index < image_count(data) < 0x1_0000,
        6 + 16 * image_count(data) <= data.len(),
        0 <= i,
        written == with_resource(
            image_resources(data, image_count(data) as nat),
            14,
            1,
            0x409,
            group(data, image_count(data) as nat),
        ),
    ensures
        ({
            let size = little_endian(data, 16 * (index + 1) - 2, 4);
            let offset = little_endian(data, 16 * (index + 1) + 2, 4);
            let start = resource_at(data, index);
            &&& has_resource_head(written, start, size, 3, index + 1)
            &&& i < size ==> written[start + 32 + i] == data[offset + i]
        }),
        little_endian(written, 0, 4) == 0,
        little_endian(written, 4, 4) == 32,
        little_endian(written, 8, 2) == 0xffff,
        little_endian(written, 10, 2) == 0,
        little_endian(written, 12, 2) == 0xffff,
        14 <= i < 32 ==> written[i] == 0,
        is_put(
            image_resources(data, image_count(data) as nat),
            written,
            14,
            1,
            group(data, image_count(data) as nat),
        ),
        written.len() == resource_at(data, image_count(data)) + 32 + (6 + 14 * image_count(data) + 3) / 4
            * 4,
        image_resources(data, image_count(data) as nat).len() == resource_at(data, image_count(data)),
{
    let count = image_count(data);
    let listed = group(data, count as nat);
    lemma_images_are_put(data, count);
    lemma_group(data, count, index, 0);
    lemma_resource_is_put(image_resources(data, count as nat), 14, 1, listed);
    lemma_images_in_front(data, image_resources(data, count as nat), written, listed, index, i);
}

#[verifier::rlimit(40)]
proof fn lemma_images_in_front(
    data: Seq<u8>,
    images: Seq<u8>,
    written: Seq<u8>,
    listed: Seq<u8>,
    index: int,
    i: int,
)
    requires
        data.len() >= 6,
        icon_error(data) is None,
        0 <= index < image_count(data),
        0 <= i,
        images == image_resources(data, image_count(data) as nat),
        images.len() == resource_at(data, image_count(data)),
        20 <= listed.len(),
        is_put(images, written, 14, 1, listed),
    ensures
        ({
            let size = little_endian(data, 16 * (index + 1) - 2, 4);
            let offset = little_endian(data, 16 * (index + 1) + 2, 4);
            let start = resource_at(data, index);
            &&& has_resource_head(written, start, size, 3, index + 1)
            &&& i < size ==> written[start + 32 + i] == data[offset + i]
        }),
        little_endian(written, 0, 4) == 0,
        little_endian(written, 4, 4) == 32,
        little_endian(written, 8, 2) == 0xffff,
        little_endian(written, 10, 2) == 0,
        little_endian(written, 12, 2) == 0xffff,
        14 <= i < 32 ==> written[i] == 0,
{
    let count = image_count(data);
    lemma_written_list(written, images, listed, resource_at(data, count), 0, 0);
    lemma_written_image(data, index, count, written, i);
    lemma_start_is_kept(data, count, written);
    lemma_written_start(written, i);
}

proof fn lemma_start_is_kept(data: Seq<u8>, count: int, written: Seq<u8>)
    requires
        data.len() >= 6,
        icon_error(data) is None,
        count == image_count(data),
        0 <= count,
        forall|j: int|
            0 <= j < resource_at(data, count) ==> #[trigger] written[j] == image_resources(
                data,
                count as nat,
            )[j],
    ensures
        forall|j: int| 0 <= j < 32 ==> written[0 + j] == #[trigger] null_resource()[j],
{
    let none = null_resource();
    assert(image_resources(data, 0) == none);
    assert(resource_at(data, 0) == 32);
    assert forall|j: int| 0 <= j < 32 implies written[0 + j] == #[trigger] none[j] by {
        lemma_images_stay(data, 0, count, j);
        assert(written[j] == image_resources(data, count as nat)[j]);
    }
}

/// What is put for the list of the images of an icon.
proof fn lemma_listed(data: Seq<u8>, written: Seq<u8>, index: int, i: int)
    requires
        0 <= index < image_count(data) < 0x1_0000,
        6 + 16 * image_count(data) <= data.len(),
        0 <= i,
        is_put(
            image_resources(data, image_count(data) as nat),
            written,
            14,
            1,
            group(data, image_count(data) as nat),
        ),
        image_resources(data, image_count(data) as nat).len() == resource_at(data, image_count(data)),
    ensures
        ({
            let count = image_count(data);
            let list = resource_at(data, count);
            &&& has_resource_head(written, list, 6 + 14 * count, 14, 1)
            &&& little_endian(written, list + 32, 2) == 0
            &&& little_endian(written, list + 34, 2) == 1
            &&& little_endian(written, list + 36, 2) == count
            &&& i < 12 ==> written[list + 38 + 14 * index + i] == data[6 + 16 * index + i]
            &&& little_endian(written, list + 50 + 14 * index, 2) == index + 1
        }),
{
    let count = image_count(data);
    let images = image_resources(data, count as nat);
    let listed = group(data, count as nat);
    let place = if i < 12 {
        i
    } else {
        0
    };
    lemma_group(data, count, index, place);
    lemma_written_list(written, images, listed, resource_at(data, count), index, place);
}

/// The first image of 32 by 32 pixels is chosen, and the first of all if there is none of that size; it
/// must begin within the file.
pub proof fn lemma_small_image_is_chosen(icon: &[u8], image: Option<(usize, u32)>, chosen: int)
    requires
        call_ensures(load_application_icon, (icon,), image),
        icon@.len() >= 22,
        6 + 16 * little_endian(icon@, 4, 2) <= icon@.len(),
        0 <= chosen < little_endian(icon@, 4, 2),
        forall|i: int|
            0 <= i < chosen ==> #[trigger] icon@[6 + 16 * i] != 32 || icon@[7 + 16 * i] != 32,
    ensures
        icon@[6 + 16 * chosen] == 32 && icon@[7 + 16 * chosen] == 32 ==> {
            let size = little_endian(icon@, 14 + 16 * chosen, 4);
            let offset = little_endian(icon@, 18 + 16 * chosen, 4);
            &&& offset <= icon@.len() ==> image is Some && (image->0).0 == offset && (image->0).1 == size
            &&& offset > icon@.len() ==> image is None
        },
        chosen + 1 == little_endian(icon@, 4, 2) && (icon@[6 + 16 * chosen] != 32 || icon@[7 + 16 * chosen]
            != 32) ==> {
            let size = little_endian(icon@, 14, 4);
            let offset = little_endian(icon@, 18, 4);
            &&& offset <= icon@.len() ==> image is Some && (image->0).0 == offset && (image->0).1 == size
            &&& offset > icon@.len() ==> image is None
        },
{
    let data = icon@;
    lemma_numbers_are_little_endian(data, 4);
    lemma_numbers_are_little_endian(data, 14 + 16 * chosen);
    lemma_numbers_are_little_endian(data, 18 + 16 * chosen);
    lemma_numbers_are_little_endian(data, 14);
    lemma_numbers_are_little_endian(data, 18);
    let count = image_count(data);
    assert(entry_at(count) == 6 + 16 * count);
    assert forall|i: int| 0 <= i < chosen implies !#[trigger] is_tray_size(data, i) by {
        assert(entry_at(i) == 6 + 16 * i);
        assert(data[6 + 16 * i] != 32 || data[7 + 16 * i] != 32);
    }
    assert(entry_at(chosen) == 6 + 16 * chosen);
    assert(entry_at(0) == 6);
    let small = is_tray_size(data, chosen);
    let found = choose|found: int| #[trigger]
        is_chosen(data, found) && match image {
            Some((offset, size)) => {
                &&& offset == le32(data, entry_at(found) + 12)
                &&& offset <= data.len()
                &&& size == le32(data, entry_at(found) + 8)
            },
            None => le32(data, entry_at(found) + 12) > data.len(),
        };
    assert(is_chosen(data, found));
    if small {
        assert(found == chosen) by {
            if found < chosen {
                assert(!is_tray_size(data, found));
            } else if chosen < found {
                assert(!is_tray_size(data, chosen));
            }
        }
    } else if chosen + 1 == count {
        assert forall|i: int| 0 <= i < count implies !#[trigger] is_tray_size(data, i) by {
            if i == chosen {
            }
        }
        assert(found == 0);
    }
}

/// A file without room for its list of images has no image to show.
pub proof fn lemma_short_icons_show_nothing(icon: &[u8], image: Option<(usize, u32)>)
    requires
        call_ensures(load_application_icon, (icon,), image),
        icon@.len() < 22 || icon@.len() < 6 + 16 * little_endian(icon@, 4, 2),
    ensures
        image is None,
{
    lemma_numbers_are_little_endian(icon@, 4);
    assert(entry_at(image_count(icon@)) == 6 + 16 * image_count(icon@));
}

} // verus!
