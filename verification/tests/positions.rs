use wscrpt::lsp::{
    CharOffset, DocumentSnapshot, DocumentVersion, Line, LspPosition, PositionError, Utf16Offset,
};
use wscrpt::lsp_edits::{cursor_position, cursor_position_in_snapshot};

fn position(line: usize, character: usize) -> LspPosition {
    LspPosition::new(Line::new(line), Utf16Offset::new(character))
}

#[test]
fn cursors_are_counted_in_utf16_units() {
    assert_eq!(cursor_position("a🦀b\nx", 2), Ok(position(0, 3)));
    assert_eq!(cursor_position("a🦀b\nx", 4), Ok(position(1, 0)));
    assert!(cursor_position("ab", 3).is_err());
    let snapshot = DocumentSnapshot::from_text("é\n", DocumentVersion::new(4));
    assert_eq!(cursor_position_in_snapshot(&snapshot, 1), Ok(position(0, 1)));
    assert_eq!(snapshot.version().get(), 4);
}

#[test]
fn offsets_are_read_back() {
    let snapshot = DocumentSnapshot::from_text("ä🦀\r\nz\n", DocumentVersion::new(1));
    for offset in [0, 1, 2, 4, 5, 6] {
        let there = snapshot.char_to_position(CharOffset::new(offset)).unwrap();
        assert_eq!(snapshot.position_to_char(there).unwrap().get(), offset);
    }
}

#[test]
fn positions_outside_the_text_are_refused() {
    let snapshot = DocumentSnapshot::from_text("🦀\nz", DocumentVersion::new(1));
    assert_eq!(
        snapshot.position_to_char(position(0, 1)),
        Err(PositionError::SplitSurrogatePair)
    );
    assert_eq!(snapshot.position_to_char(position(2, 0)), Err(PositionError::LineOutOfBounds));
    assert_eq!(
        snapshot.position_to_char(position(1, 2)),
        Err(PositionError::CharacterOutOfBounds)
    );
    assert_eq!(
        snapshot.char_to_position(CharOffset::new(4)),
        Err(PositionError::OffsetOutOfBounds)
    );
}
