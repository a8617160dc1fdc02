use looppanel::icon::{icon_resource, load_application_icon, IconError};

fn icon(images: &[(u8, &[u8])]) -> Vec<u8> {
    let mut data = vec![0, 0, 1, 0];
    data.extend((images.len() as u16).to_le_bytes());
    let mut offset = 6 + images.len() * 16;
    for (side, image) in images {
        data.extend([*side, *side, 0, 0, 1, 0, 32, 0]);
        data.extend((image.len() as u32).to_le_bytes());
        data.extend((offset as u32).to_le_bytes());
        offset += image.len();
    }
    for (_, image) in images {
        data.extend_from_slice(image);
    }
    data
}

fn header(length: u32, kind: u16, name: u16) -> Vec<u8> {
    let mut header = Vec::new();
    header.extend(length.to_le_bytes());
    header.extend([32, 0, 0, 0, 0xff, 0xff]);
    header.extend(kind.to_le_bytes());
    header.extend([0xff, 0xff]);
    header.extend(name.to_le_bytes());
    header.extend([0, 0, 0, 0, 0x30, 0, 0x09, 0x04, 0, 0, 0, 0, 0, 0, 0, 0]);
    header
}

#[test]
fn icon_becomes_resources() {
    let data = icon(&[(16, b"abcde"), (32, b"12")]);
    let mut expected = vec![0, 0, 0, 0, 32, 0, 0, 0, 0xff, 0xff, 0, 0, 0xff, 0xff, 0, 0];
    expected.extend([0; 16]);
    expected.extend(header(5, 3, 1));
    expected.extend(b"abcde\0\0\0");
    expected.extend(header(2, 3, 2));
    expected.extend(b"12\0\0");
    expected.extend(header(34, 14, 1));
    expected.extend([0, 0, 1, 0, 2, 0]);
    expected.extend_from_slice(&data[6..18]);
    expected.extend([1, 0]);
    expected.extend_from_slice(&data[22..34]);
    expected.extend([2, 0, 0, 0]);
    let resource = icon_resource(&data).unwrap();
    assert_eq!(resource, expected);
    assert_eq!(resource.len() % 4, 0);
}

#[test]
fn damaged_icons_are_refused() {
    let good = icon(&[(16, b"abcde")]);
    let with = |index: usize, value: u8| {
        let mut data = good.clone();
        data[index] = value;
        icon_resource(&data)
    };
    assert_eq!(icon_resource(&good[..5]), Err(IconError::Header));
    assert_eq!(with(0, 1), Err(IconError::Reserved));
    assert_eq!(with(2, 2), Err(IconError::NotAnIcon));
    assert_eq!(with(4, 0), Err(IconError::NoImages));
    assert_eq!(with(4, 2), Err(IconError::TruncatedDirectory));
    assert_eq!(with(14, 6), Err(IconError::TruncatedImage));
    assert_eq!(with(21, 0xff), Err(IconError::TruncatedImage));
}

#[test]
fn image_of_the_notification_area_is_chosen() {
    let data = icon(&[(16, b"abcde"), (32, b"12"), (32, b"3")]);
    assert_eq!(load_application_icon(&data), Some((59, 2)));
    let data = icon(&[(16, b"abcde"), (48, b"12")]);
    assert_eq!(load_application_icon(&data), Some((38, 5)));
    assert_eq!(load_application_icon(&data[..20]), None);
    assert_eq!(load_application_icon(&[0; 30]), Some((0, 0)));
    let mut far = data.clone();
    far[20] = 0xff;
    assert_eq!(load_application_icon(&far), None);
}
