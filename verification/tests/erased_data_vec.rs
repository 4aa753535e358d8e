use kecs::ErasedVec;
use kecs::array_layout;

// The layout of a struct of one u32 and one String on a 64-bit machine.
const TEST_STRUCT_SIZE: usize = 32;
const TEST_STRUCT_ALIGN: usize = 8;

// An erased element holding a u32 and a string of at most 56 bytes.
const ELEMENT_SIZE: usize = 60;

fn element(foo: u32, string: &str) -> Vec<u8> {
    let mut bytes = foo.to_le_bytes().to_vec();
    bytes.extend_from_slice(string.as_bytes());
    bytes.resize(ELEMENT_SIZE, 0);
    bytes
}

fn foo_of(bytes: &[u8]) -> u32 {
    u32::from_le_bytes([bytes[0], bytes[1], bytes[2], bytes[3]])
}

fn string_of(bytes: &[u8]) -> String {
    let tail = &bytes[4..];
    let len = tail.iter().position(|&b| b == 0).unwrap_or(tail.len());
    String::from_utf8(tail[..len].to_vec()).unwrap()
}

#[test]
fn create_empty() {
    let mut vec = ErasedVec::new(TEST_STRUCT_SIZE, TEST_STRUCT_ALIGN, 0);
    assert_eq!(vec.capacity(), 0);
    vec.reserve_exact(1);
    assert_eq!(vec.capacity(), 1);
}

#[test]
fn zero_sized() {
    let mut vec = ErasedVec::new(0, 1, 0);
    vec.reserve_exact(1000);
    let empty: Vec<u8> = Vec::new();
    vec.push_back(&empty);
    vec.push_back(&empty);
    vec.push_back(&empty);
    vec.push_back(&empty);
    vec.push_back(&empty);
    vec.push_back(&empty);

    assert_eq!(vec.len(), 6);

    vec.clear();

    assert_eq!(vec.len(), 0);
    drop(vec)
}

#[test]
fn aligned_data() {
    let mut vec = ErasedVec::new(0, 32, 0);
    vec.reserve_exact(1000);
    let empty: Vec<u8> = Vec::new();
    vec.push_back(&empty);
    vec.push_back(&empty);
    vec.push_back(&empty);
    vec.push_back(&empty);
    vec.push_back(&empty);
    vec.push_back(&empty);

    assert_eq!(vec.len(), 6);

    vec.clear();

    assert_eq!(vec.len(), 0);
    drop(vec)
}

#[test]
fn copy_vec() {
    const STR: &str = "Hello World!";
    let mut value: Vec<u8> = 42u32.to_le_bytes().to_vec();
    value.extend_from_slice(STR.as_bytes());
    let elem_size = value.len();

    let mut vec1 = ErasedVec::new(elem_size, 4, 1);
    let mut vec2 = ErasedVec::new(elem_size, 4, 1);

    vec1.push_back(&value);

    vec2.ensure_len(1);
    vec2.copy_from(0, &vec1, 0);

    let copied = vec2.get(0);
    assert_eq!(&copied[0..4], &42u32.to_le_bytes());
    assert_eq!(&copied[4..], STR.as_bytes());
}

#[test]
fn push_get_remove_shifts_tail() {
    let mut vec = ErasedVec::new(4, 4, 0);
    for i in 0..6u32 {
        vec.push_back(&i.to_le_bytes().to_vec());
    }
    assert_eq!(vec.len(), 6);
    for i in 0..6u32 {
        assert_eq!(vec.get(i as usize), i.to_le_bytes().to_vec());
    }
    let removed = vec.remove(4);
    assert_eq!(removed, 4u32.to_le_bytes().to_vec());
    assert_eq!(vec.len(), 5);
    assert_eq!(vec.get(4), 5u32.to_le_bytes().to_vec());
}

#[test]
fn array_layout_pads_to_alignment() {
    let (total, align) = array_layout(6, 4, 10);
    assert_eq!(total, 80);
    assert_eq!(align, 4);
    let (total, align) = array_layout(8, 8, 3);
    assert_eq!(total, 24);
    assert_eq!(align, 8);
}

#[test]
fn insert_at_overwrites_in_place_and_drop_at_scrubs() {
    let mut vec = ErasedVec::new(4, 4, 0);
    for i in 0..3u32 {
        vec.push_back(&i.to_le_bytes().to_vec());
    }
    vec.insert_at(1, &9u32.to_le_bytes().to_vec());
    assert_eq!(vec.get(0), 0u32.to_le_bytes().to_vec());
    assert_eq!(vec.get(1), 9u32.to_le_bytes().to_vec());
    assert_eq!(vec.get(2), 2u32.to_le_bytes().to_vec());

    vec.drop_at(1);
    assert_eq!(vec.get(1), vec![0u8; 4]);
    assert_eq!(vec.get(2), 2u32.to_le_bytes().to_vec());
    assert_eq!(vec.len(), 3);
}

#[test]
fn erased_data_vec_operations() {
    let mut vec = ErasedVec::new(ELEMENT_SIZE, 4, 0);
    vec.push_back(&element(0, "string0"));
    vec.push_back(&element(1, "string1"));
    vec.push_back(&element(2, "string2"));
    vec.push_back(&element(3, "string3"));
    vec.push_back(&element(4, "string4"));
    vec.push_back(&element(5, "string5"));
    assert_eq!(vec.len(), 6);

    for i in 0..6 {
        assert_eq!(foo_of(&vec.get(i)), i as u32);
        assert_eq!(string_of(&vec.get(i)), format!("string{i}").as_str());
    }

    let removed = vec.remove(4);

    assert_eq!(foo_of(&removed), 4);
    assert_eq!(string_of(&removed), "string4");
    assert_eq!(vec.len(), 5);

    assert_eq!(foo_of(&vec.get(4)), 5);
    assert_eq!(string_of(&vec.get(4)), "string5");

    for i in 0..1000 {
        vec.push_back(&element(
            i,
            "helloworldthisisalongstringandhopefullyitshouldnotbreak",
        ));
    }

    let mut modified = vec.get(300);
    modified[0..4].copy_from_slice(&42u32.to_le_bytes());
    vec.insert_at(300, &modified);

    let taken_modified = vec.remove(300);
    assert_eq!(foo_of(&taken_modified), 42);

    vec.clear();

    assert!(vec.len() == 0);
}
