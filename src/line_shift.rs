use vstd::prelude::*;

verus! {

/// Rows of the 16 × 16 demonstration bitmap: a vertical line two pixels
/// wide down the middle, with an empty first and last row.
pub open spec fn line_bitmap() -> Seq<u16> {
    seq![
        0x0000u16, 0x0600, 0x0600, 0x0600, 0x0600, 0x0600, 0x0600, 0x0600,
        0x0600, 0x0600, 0x0600, 0x0600, 0x0600, 0x0600, 0x0600, 0x0000,
    ]
}

/// A 16 × 16 bitmap holding a vertical line.
pub fn create_bitmap() -> (r: Vec<u16>)
    ensures
        r@ == line_bitmap(),
{
    let v = vec![
        0b_0000_0000_0000_0000u16,
        0b_0000_0110_0000_0000,
        0b_0000_0110_0000_0000,
        0b_0000_0110_0000_0000,
        0b_0000_0110_0000_0000,
        0b_0000_0110_0000_0000,
        0b_0000_0110_0000_0000,
        0b_0000_0110_0000_0000,
        0b_0000_0110_0000_0000,
        0b_0000_0110_0000_0000,
        0b_0000_0110_0000_0000,
        0b_0000_0110_0000_0000,
        0b_0000_0110_0000_0000,
        0b_0000_0110_0000_0000,
        0b_0000_0110_0000_0000,
        0b_0000_0000_0000_0000,
    ];
    proof {
        assert(v@ =~= line_bitmap());
    }
    v
}

/// Every row shifted right by `shift` bits.
pub fn shift_bitmap(rows: &Vec<u16>, shift: u16) -> (r: Vec<u16>)
    requires
        shift < 16,
    ensures
        r@.len() == rows@.len(),
        forall|i: int| 0 <= i < rows@.len() ==> r@[i] == rows@[i] >> shift,
{
    let mut result: Vec<u16> = Vec::new();
    let mut i: usize = 0;
    while i < rows.len()
        invariant
            i <= rows@.len(),
            shift < 16,
            result@.len() == i,
            forall|j: int| 0 <= j < i ==> result@[j] == rows@[j] >> shift,
        decreases rows@.len() - i,
    {
        let new_row = rows[i] >> shift;
        result.push(new_row);
        i = i + 1;
    }
    result
}

} // verus!
