use bitfield_register::{Definition, Field, Mask, Read, Register, RegisterGet, ShapeError, Write};

fn eie() -> Definition<u8> {
    let mut eie = Definition::<u8>::new(0);
    eie.declare("rxerie", "Receive Error Interrupt Enable bit", Field::bit(0).unwrap()).unwrap();
    eie.declare("txerie", "Transmit Error Interrupt Enable bit", Field::bit(1).unwrap()).unwrap();
    eie.declare("txie", "Transmit Enable bit", Field::bit(3).unwrap()).unwrap();
    eie.declare("linkie", "Link Status Change Interrupt Enable bit", Field::bit(4).unwrap())
        .unwrap();
    eie.declare("dmaie", "DMA Interrupt Enable bit", Field::bit(5).unwrap()).unwrap();
    eie.declare("pktie", "Receive Packet Pending Interrupt Enable bit", Field::bit(6).unwrap())
        .unwrap();
    eie.declare("intie", "Global INT Interrupt Enable bit", Field::bit(7).unwrap()).unwrap();
    eie
}

#[test]
fn sanity() {
    let mut eie = Definition::<u8>::new(0);
    assert_eq!(
        eie.declare("rxerie", "Receive Error Interrupt Enable bit", Field::bit(0).unwrap()),
        Ok(())
    );
    assert_eq!(
        eie.declare("txerie", "Transmit Error Interrupt Enable bit", Field::bit(1).unwrap()),
        Ok(())
    );
    assert_eq!(eie.declare("txie", "Transmit Enable bit", Field::bit(3).unwrap()), Ok(()));
    assert_eq!(
        eie.declare("linkie", "Link Status Change Interrupt Enable bit", Field::bit(4).unwrap()),
        Ok(())
    );
    assert_eq!(eie.declare("dmaie", "DMA Interrupt Enable bit", Field::bit(5).unwrap()), Ok(()));
    assert_eq!(
        eie.declare("pktie", "Receive Packet Pending Interrupt Enable bit", Field::bit(6).unwrap()),
        Ok(())
    );
    assert_eq!(
        eie.declare("intie", "Global INT Interrupt Enable bit", Field::bit(7).unwrap()),
        Ok(())
    );
    assert_eq!(eie.reset(), 0);
}

#[test]
fn eie_read_then_modify() {
    let eie = eie();
    let read = Register::new(0b1001_0011u8);
    assert_eq!(read.field(eie.field("rxerie").unwrap()), 1);
    assert_eq!(read.field(eie.field("txerie").unwrap()), 1);
    assert_eq!(read.field(eie.field("txie").unwrap()), 0);
    assert_eq!(read.field(eie.field("linkie").unwrap()), 1);
    assert_eq!(read.field(eie.field("dmaie").unwrap()), 0);
    assert_eq!(read.field(eie.field("pktie").unwrap()), 0);
    assert_eq!(read.field(eie.field("intie").unwrap()), 1);

    let mut write = read.modify();
    write.field(eie.field("txie").unwrap(), 1);
    assert_eq!(write.bits(), 0b1001_1011);
}

#[test]
fn eie_masks() {
    let eie = eie();
    let masks = Register::<u8, Mask>::mask();
    assert_eq!(masks.field(eie.field("rxerie").unwrap()), 0b0000_0001);
    assert_eq!(masks.field(eie.field("txerie").unwrap()), 0b0000_0010);
    assert_eq!(masks.field(eie.field("txie").unwrap()), 0b0000_1000);
    assert_eq!(masks.field(eie.field("linkie").unwrap()), 0b0001_0000);
    assert_eq!(masks.field(eie.field("dmaie").unwrap()), 0b0010_0000);
    assert_eq!(masks.field(eie.field("pktie").unwrap()), 0b0100_0000);
    assert_eq!(masks.field(eie.field("intie").unwrap()), 0b1000_0000);
}

#[test]
fn eie_fields_do_not_disturb_each_other() {
    let eie = eie();
    let names = ["rxerie", "txerie", "txie", "linkie", "dmaie", "pktie", "intie"];
    for raw in 0..=255u8 {
        let before = Register::new(raw);
        for written in names {
            for value in 0..=1u8 {
                let mut write = before.modify();
                write.field(eie.field(written).unwrap(), value);
                let after = Register::new(write.bits());
                for other in names {
                    let field = eie.field(other).unwrap();
                    if other == written {
                        assert_eq!(after.field(field), value);
                    } else {
                        assert_eq!(after.field(field), before.field(field));
                    }
                }
            }
        }
    }
}

#[test]
fn default_value_holds_the_reset_value() {
    let definition = Definition::<u16>::new(0x8001);
    assert_eq!(definition.default_value::<Write>().bits(), 0x8001);
    assert_eq!(definition.default_value::<Read>().get(), 0x8001);
    assert_eq!(definition.default_value::<Mask>().get(), 0x8001);
    assert_eq!(definition.reset(), 0x8001);

    let wide = Definition::<u64>::new(u64::MAX);
    assert_eq!(wide.default_value::<Write>().bits(), u64::MAX);
}

#[test]
fn default_value_is_the_start_of_a_write() {
    let mut definition = Definition::<u8>::new(0b1100_0011);
    definition.declare("mode", "Operating mode", Field::range(2..6).unwrap()).unwrap();
    let mut write = definition.default_value::<Write>();
    write.field(definition.field("mode").unwrap(), 0b1010);
    assert_eq!(write.bits(), 0b1110_1011);
}

#[test]
fn declared_field_is_found_by_name() {
    let mut definition = Definition::<u32>::new(0);
    let field = Field::range(4..9).unwrap();
    definition.declare("divider", "Clock divider", field).unwrap();
    assert_eq!(definition.field("divider"), Some(field));
    assert_eq!(definition.field("Divider"), None);
    assert_eq!(definition.field(""), None);
}

#[test]
fn description_is_kept_as_given() {
    let eie = eie();
    assert_eq!(eie.doc("rxerie").unwrap(), "Receive Error Interrupt Enable bit");
    assert_eq!(eie.doc("intie").unwrap(), "Global INT Interrupt Enable bit");
    assert_eq!(eie.doc("missing"), None);
}

#[test]
fn empty_definition_declares_nothing() {
    let definition = Definition::<u8>::new(0x12);
    assert_eq!(definition.field("anything"), None);
    assert_eq!(definition.doc("anything"), None);
    assert_eq!(definition.reset(), 0x12);
}

#[test]
fn name_taken_is_a_duplicate() {
    let mut definition = Definition::<u8>::new(0);
    definition.declare("flag", "First", Field::bit(0).unwrap()).unwrap();
    assert_eq!(
        definition.declare("flag", "Second", Field::bit(1).unwrap()),
        Err(ShapeError::Duplicate)
    );
    // The name counts before the bits do.
    assert_eq!(
        definition.declare("flag", "Third", Field::bit(0).unwrap()),
        Err(ShapeError::Duplicate)
    );
}

#[test]
fn shared_bit_is_an_overlap() {
    let mut definition = Definition::<u8>::new(0);
    definition.declare("low", "Low half", Field::range(0..4).unwrap()).unwrap();
    assert_eq!(
        definition.declare("middle", "Middle", Field::range(3..5).unwrap()),
        Err(ShapeError::Overlap)
    );
    assert_eq!(
        definition.declare("bit", "One bit", Field::bit(0).unwrap()),
        Err(ShapeError::Overlap)
    );
    assert_eq!(
        definition.declare("all", "Whole word", Field::range(0..8).unwrap()),
        Err(ShapeError::Overlap)
    );
    assert_eq!(definition.declare("high", "High half", Field::range(4..8).unwrap()), Ok(()));
}

#[test]
fn refused_declaration_changes_nothing() {
    let mut definition = Definition::<u8>::new(9);
    let first = Field::range(0..4).unwrap();
    definition.declare("first", "First", first).unwrap();
    assert!(definition.declare("first", "Again", Field::bit(7).unwrap()).is_err());
    assert!(definition.declare("second", "Second", Field::bit(2).unwrap()).is_err());
    assert_eq!(definition.field("first"), Some(first));
    assert_eq!(definition.doc("first").unwrap(), "First");
    assert_eq!(definition.field("second"), None);
    assert_eq!(definition.reset(), 9);
}
