use peridot_archive::pvp::{
    PvpContainer, PvpContainerReader, VertexInputAttributeDescription,
    VertexInputBindingDescription,
};
use peridot_archive::ParError;

fn sample_container(with_fragment: bool) -> PvpContainer {
    PvpContainer {
        vertex_bindings: vec![
            VertexInputBindingDescription { binding: 0, input_rate: 0, stride: 24 },
            VertexInputBindingDescription { binding: 1, input_rate: 1, stride: 8 },
        ],
        vertex_attributes: vec![
            VertexInputAttributeDescription { location: 0, binding: 0, offset: 0, format: 103 },
            VertexInputAttributeDescription { location: 1, binding: 0, offset: 16, format: 100 },
            VertexInputAttributeDescription { location: 2, binding: 1, offset: 0, format: 98 },
        ],
        vertex_shader: vec![0xabu8; 50],
        fragment_shader: if with_fragment {
            Some(vec![0xcdu8; 20])
        } else {
            None
        },
    }
}

#[test]
fn container_without_fragment_stage() {
    let c = sample_container(false);
    let bytes = c.write();
    let reader = PvpContainerReader::new(bytes).unwrap();
    assert!(!reader.is_fragment_stage_provided());
    assert_eq!(reader.read_vertex_bindings().unwrap(), c.vertex_bindings);
    assert_eq!(reader.read_vertex_attributes().unwrap(), c.vertex_attributes);
    assert_eq!(reader.read_vertex_shader().unwrap(), c.vertex_shader);
    let back = reader.into_container().unwrap();
    assert_eq!(back, c);
}

#[test]
fn container_with_fragment_stage() {
    let c = sample_container(true);
    let bytes = c.write();
    let reader = PvpContainerReader::new(bytes).unwrap();
    assert!(reader.is_fragment_stage_provided());
    assert_eq!(reader.read_fragment_shader().unwrap(), vec![0xcdu8; 20]);
    let back = reader.into_container().unwrap();
    assert_eq!(back, c);
}

#[test]
fn empty_container_round_trips() {
    let c = PvpContainer::empty();
    let bytes = c.write();
    let reader = PvpContainerReader::new(bytes).unwrap();
    assert!(!reader.is_fragment_stage_provided());
    let back = reader.into_container().unwrap();
    assert_eq!(back, PvpContainer::empty());
}

#[test]
fn container_signature_layout() {
    let c = PvpContainer::empty();
    let bytes = c.write();
    // Signature, version, then three offsets: one past the empty binding
    // list, one past the empty attribute list, and zero for no fragment.
    assert_eq!(&bytes[..4], &[0x50, 0x56, 0x50, 0x01]);
    assert_eq!(&bytes[4..7], &[1, 2, 0]);
}

#[test]
fn bad_signature_is_rejected() {
    let bytes = vec![0x50u8, 0x56, 0x50, 0x02, 0, 0, 0];
    assert!(matches!(
        PvpContainerReader::new(bytes),
        Err(ParError::UnsupportedFormat)
    ));
}

#[test]
fn short_container_is_truncated() {
    let bytes = vec![0x50u8, 0x56, 0x50];
    assert!(matches!(
        PvpContainerReader::new(bytes),
        Err(ParError::Truncated)
    ));
    let bytes2 = vec![0x50u8, 0x56, 0x50, 0x01, 0x80];
    assert!(matches!(
        PvpContainerReader::new(bytes2),
        Err(ParError::Truncated)
    ));
}

#[test]
fn offset_past_blob_is_corrupt() {
    // A header whose first offset reaches past the end of the file.
    let bytes = vec![0x50u8, 0x56, 0x50, 0x01, 0x7f, 0x00, 0x00];
    assert!(matches!(
        PvpContainerReader::new(bytes),
        Err(ParError::Corrupt)
    ));
}
