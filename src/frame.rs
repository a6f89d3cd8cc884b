//! The finished image: rows of 8-bit RGB pixels. Workers hand in their rows
//! in whatever order they finish; each row carries its index, and assembly
//! places it by that index alone, so the frame is the same for every order
//! of completion.
use vstd::prelude::*;

verus! {

/// One pixel, quantised to 8 bits per channel.
#[derive(Clone, Copy, Debug, PartialEq, Eq, Structural)]
pub struct Rgb8 {
    pub r: u8,
    pub g: u8,
    pub b: u8,
}

/// A channel level clamped into the range of a byte.
pub open spec fn spec_channel_byte(level: i32) -> u8 {
    if level < 0 {
        0
    } else if level > 255 {
        255
    } else {
        level as u8
    }
}

/// Clamps a quantised channel level into `0..=255`.
pub fn channel_byte(level: i32) -> (r: u8)
    ensures
        r == spec_channel_byte(level),
{
    if level < 0 {
        0
    } else if level > 255 {
        255
    } else {
        level as u8
    }
}

/// The pixel with the given quantised channel levels, each clamped into
/// `0..=255`.
pub fn pixel_from_levels(r: i32, g: i32, b: i32) -> (p: Rgb8)
    ensures
        p == (Rgb8 { r: spec_channel_byte(r), g: spec_channel_byte(g), b: spec_channel_byte(b) }),
{
    Rgb8 { r: channel_byte(r), g: channel_byte(g), b: channel_byte(b) }
}

/// A finished image row as a worker hands it in: its index, counted from
/// the top, and its pixels from left to right.
pub struct RowResult {
    pub row: u32,
    pub pixels: Vec<Rgb8>,
}

/// Why a set of rows does not make a frame.
#[derive(Clone, Copy, Debug, PartialEq, Eq, Structural)]
pub enum FrameError {
    /// A row's index is not below the frame's height.
    RowOutOfRange { row: u32 },
    /// A row does not hold exactly one pixel per column.
    WrongRowLength { row: u32 },
    /// A row index was handed in twice.
    DuplicateRow { row: u32 },
    /// No row was handed in for this index.
    MissingRow { row: u32 },
}

/// The fault of entry `k` of `rs`, judged against the entries before it.
pub open spec fn entry_fault(width: u32, height: u32, rs: Seq<RowResult>, k: int) -> Option<FrameError> {
    let row = rs[k].row;
    if row >= height {
        Some(FrameError::RowOutOfRange { row })
    } else if rs[k].pixels@.len() != width {
        Some(FrameError::WrongRowLength { row })
    } else if exists|j: int| 0 <= j < k && #[trigger] rs[j].row == row {
        Some(FrameError::DuplicateRow { row })
    } else {
        None
    }
}

/// The fault of the first faulty entry of `rs`, if any.
pub open spec fn first_fault(width: u32, height: u32, rs: Seq<RowResult>) -> Option<FrameError>
    decreases rs.len(),
{
    if rs.len() == 0 {
        None
    } else {
        match first_fault(width, height, rs.drop_last()) {
            Some(f) => Some(f),
            None => entry_fault(width, height, rs, rs.len() - 1),
        }
    }
}

/// Some entry of `rs` fills row `y`.
pub open spec fn covers(rs: Seq<RowResult>, y: int) -> bool {
    exists|j: int| 0 <= j < rs.len() && #[trigger] rs[j].row == y
}

/// `y` is the first row index below `height` that no entry fills.
pub open spec fn first_missing(height: u32, rs: Seq<RowResult>, y: int) -> bool {
    &&& 0 <= y < height
    &&& !covers(rs, y)
    &&& forall|z: int| 0 <= z < y ==> covers(rs, z)
}

/// The pixels handed in for row `y`.
pub open spec fn pixels_of_row(rs: Seq<RowResult>, y: int) -> Seq<Rgb8> {
    rs[choose|j: int| 0 <= j < rs.len() && #[trigger] rs[j].row == y].pixels@
}

/// The rows of the frame, top to bottom.
pub open spec fn assembled_rows(height: u32, rs: Seq<RowResult>) -> Seq<Seq<Rgb8>> {
    Seq::new(height as nat, |y: int| pixels_of_row(rs, y))
}

/// The outcome of assembling the rows `rs`, handed in in this order, into a
/// frame `width` pixels wide and `height` rows tall: the fault of the first
/// faulty entry; else the first row that nobody handed in; else the rows
/// placed by their indices.
pub open spec fn spec_assemble(width: u32, height: u32, rs: Seq<RowResult>) -> Result<
    Seq<Seq<Rgb8>>,
    FrameError,
> {
    match first_fault(width, height, rs) {
        Some(f) => Err(f),
        None => {
            if exists|y: int| 0 <= y < height && !covers(rs, y) {
                Err(FrameError::MissingRow { row: (choose|y: int| first_missing(height, rs, y)) as u32 })
            } else {
                Ok(assembled_rows(height, rs))
            }
        },
    }
}

/// No entry of `rs` is faulty exactly when every row index is in range,
/// every row has `width` pixels, and no index comes twice.
pub proof fn lemma_no_fault(width: u32, height: u32, rs: Seq<RowResult>)
    ensures
        first_fault(width, height, rs) is None <==> {
            &&& forall|k: int| 0 <= k < rs.len() ==> #[trigger] rs[k].row < height
            &&& forall|k: int| 0 <= k < rs.len() ==> (#[trigger] rs[k].pixels@).len() == width
            &&& forall|j: int, k: int|
                0 <= j < rs.len() && 0 <= k < rs.len() && j != k ==> rs[j].row != rs[k].row
        },
    decreases rs.len(),
{
    if rs.len() > 0 {
        let prefix = rs.drop_last();
        let n = prefix.len() as int;
        lemma_no_fault(width, height, prefix);
        assert forall|k: int| 0 <= k < n implies #[trigger] rs[k] == prefix[k] by {}
    }
}

/// Once a prefix of `rs` holds a faulty entry, the first fault of the whole
/// of `rs` is that of the prefix.
proof fn lemma_fault_in_prefix(width: u32, height: u32, rs: Seq<RowResult>, m: int)
    requires
        0 <= m <= rs.len(),
        first_fault(width, height, rs.take(m)) is Some,
    ensures
        first_fault(width, height, rs) == first_fault(width, height, rs.take(m)),
    decreases rs.len(),
{
    if m == rs.len() {
        assert(rs.take(m) =~= rs);
    } else {
        let prefix = rs.drop_last();
        assert(prefix.take(m) =~= rs.take(m));
        lemma_fault_in_prefix(width, height, prefix, m);
    }
}

/// The first missing row, when there is one, is the only index that is
/// first missing.
proof fn lemma_first_missing_unique(height: u32, rs: Seq<RowResult>, y: int)
    requires
        first_missing(height, rs, y),
    ensures
        (choose|z: int| first_missing(height, rs, z)) == y,
{
    let z = choose|z: int| first_missing(height, rs, z);
    assert(first_missing(height, rs, z));
    if z < y {
        assert(covers(rs, z));
    } else if y < z {
        assert(covers(rs, y));
    }
}

/// In rows without duplicates, the entry that fills row `rs[j].row` is
/// entry `j`.
proof fn lemma_pixels_of_unique_row(rs: Seq<RowResult>, j: int)
    requires
        0 <= j < rs.len(),
        forall|a: int, b: int|
            0 <= a < rs.len() && 0 <= b < rs.len() && a != b ==> rs[a].row != rs[b].row,
    ensures
        pixels_of_row(rs, rs[j].row as int) == rs[j].pixels@,
{
    let y = rs[j].row as int;
    let c = choose|i: int| 0 <= i < rs.len() && #[trigger] rs[i].row == y;
    assert(0 <= c < rs.len() && rs[c].row == y);
    assert(c == j);
}

/// `b` holds the entries of `a` in another order: entry `i` of `b` is entry
/// `p[i]` of `a`, and `p` matches the entries one to one.
pub open spec fn is_reordering(a: Seq<RowResult>, b: Seq<RowResult>, p: Seq<int>) -> bool {
    &&& a.len() == b.len()
    &&& p.len() == b.len()
    &&& forall|i: int| 0 <= i < b.len() ==> 0 <= #[trigger] p[i] < a.len()
    &&& forall|i: int| 0 <= i < b.len() ==> (#[trigger] b[i]).row == a[p[i]].row
    &&& forall|i: int| 0 <= i < b.len() ==> (#[trigger] b[i]).pixels@ == a[p[i]].pixels@
    &&& forall|i: int, j: int| 0 <= i < b.len() && 0 <= j < b.len() && i != j ==> p[i] != p[j]
    &&& forall|k: int|
        #![trigger a[k]]
        0 <= k < a.len() ==> exists|i: int| 0 <= i < b.len() && #[trigger] p[i] == k
}

/// A frame that can be assembled from rows handed in in one order is
/// assembled, identical, from the same rows handed in in any other order:
/// the image does not depend on which worker finishes first.
pub proof fn lemma_assembly_ignores_completion_order(
    width: u32,
    height: u32,
    a: Seq<RowResult>,
    b: Seq<RowResult>,
    p: Seq<int>,
)
    requires
        is_reordering(a, b, p),
        spec_assemble(width, height, a) is Ok,
    ensures
        spec_assemble(width, height, b) == spec_assemble(width, height, a),
{
    lemma_no_fault(width, height, a);
    lemma_no_fault(width, height, b);
    assert(first_fault(width, height, a) is None);
    assert forall|k: int| 0 <= k < b.len() implies #[trigger] b[k].row < height by {
        assert(a[p[k]].row < height);
    }
    assert forall|k: int| 0 <= k < b.len() implies (#[trigger] b[k].pixels@).len() == width by {
        assert(a[p[k]].pixels@.len() == width);
    }
    assert forall|j: int, k: int|
        0 <= j < b.len() && 0 <= k < b.len() && j != k implies b[j].row != b[k].row by {
        assert(b[j].row == a[p[j]].row);
        assert(b[k].row == a[p[k]].row);
    }
    assert(first_fault(width, height, b) is None);
    assert(!exists|y: int| 0 <= y < height && !covers(a, y));
    assert forall|y: int| 0 <= y < height implies covers(b, y) by {
        assert(covers(a, y));
        let k = choose|k: int| 0 <= k < a.len() && #[trigger] a[k].row == y;
        let i = choose|i: int| 0 <= i < b.len() && #[trigger] p[i] == k;
        assert(b[i].row == y);
    }
    assert forall|y: int| 0 <= y < height implies pixels_of_row(b, y) == pixels_of_row(a, y) by {
        assert(covers(b, y));
        let i = choose|i: int| 0 <= i < b.len() && #[trigger] b[i].row == y;
        lemma_pixels_of_unique_row(b, i);
        lemma_pixels_of_unique_row(a, p[i]);
        assert(a[p[i]].row == y);
    }
    assert(assembled_rows(height, b) =~= assembled_rows(height, a));
}

/// The bytes of one pixel, red first.
pub open spec fn pixel_bytes(p: Rgb8) -> Seq<u8> {
    seq![p.r, p.g, p.b]
}

/// The bytes of a row, pixel after pixel from the left.
pub open spec fn row_bytes(row: Seq<Rgb8>) -> Seq<u8>
    decreases row.len(),
{
    if row.len() == 0 {
        Seq::empty()
    } else {
        row_bytes(row.drop_last()) + pixel_bytes(row.last())
    }
}

/// The bytes of a frame, row after row from the top.
pub open spec fn frame_bytes(rows: Seq<Seq<Rgb8>>) -> Seq<u8>
    decreases rows.len(),
{
    if rows.len() == 0 {
        Seq::empty()
    } else {
        frame_bytes(rows.drop_last()) + row_bytes(rows.last())
    }
}

proof fn lemma_row_bytes_len(row: Seq<Rgb8>)
    ensures
        row_bytes(row).len() == 3 * row.len(),
    decreases row.len(),
{
    if row.len() > 0 {
        lemma_row_bytes_len(row.drop_last());
    }
}

proof fn lemma_frame_bytes_len(rows: Seq<Seq<Rgb8>>, width: nat)
    requires
        forall|y: int| 0 <= y < rows.len() ==> (#[trigger] rows[y]).len() == width,
    ensures
        frame_bytes(rows).len() == 3 * width * rows.len(),
    decreases rows.len(),
{
    if rows.len() > 0 {
        let n = rows.len() - 1;
        lemma_frame_bytes_len(rows.drop_last(), width);
        lemma_row_bytes_len(rows.last());
        assert(3 * width * n + 3 * width == 3 * width * (n + 1)) by (nonlinear_arith);
    }
}

/// The abstract frame: its size and its rows, top to bottom.
pub struct FrameView {
    pub width: nat,
    pub height: nat,
    pub rows: Seq<Seq<Rgb8>>,
}

/// A frame of `height` rows of `width` pixels each.
pub open spec fn well_shaped(v: FrameView) -> bool {
    &&& v.rows.len() == v.height
    &&& forall|y: int| 0 <= y < v.height ==> (#[trigger] v.rows[y]).len() == v.width
}

/// A finished image, `width` pixels wide and `height` rows tall.
pub struct Frame {
    width: u32,
    height: u32,
    rows: Vec<Vec<Rgb8>>,
}

impl View for Frame {
    type V = FrameView;

    closed spec fn view(&self) -> FrameView {
        FrameView {
            width: self.width as nat,
            height: self.height as nat,
            rows: self.rows@.map_values(|r: Vec<Rgb8>| r@),
        }
    }
}

/// Copies a row of pixels.
fn copy_row(src: &Vec<Rgb8>) -> (r: Vec<Rgb8>)
    ensures
        r@ == src@,
{
    let mut r: Vec<Rgb8> = Vec::new();
    let mut x: usize = 0;
    while x < src.len()
        invariant
            x <= src@.len(),
            r@ == src@.take(x as int),
        decreases src@.len() - x,
    {
        r.push(src[x]);
        x = x + 1;
        assert(r@ =~= src@.take(x as int));
    }
    assert(src@.take(x as int) =~= src@);
    r
}

impl Frame {
    #[verifier::type_invariant]
    closed spec fn inv(&self) -> bool {
        well_shaped(self@)
    }

    /// Assembles the rows that the workers handed in, in the order in which
    /// they finished, into a frame `width` pixels wide and `height` rows
    /// tall. Each row goes where its index says, whatever its place in
    /// `results`.
    pub fn assemble(width: u32, height: u32, results: &Vec<RowResult>) -> (r: Result<Frame, FrameError>)
        ensures
            match r {
                Ok(f) => {
                    &&& spec_assemble(width, height, results@) == Ok::<Seq<Seq<Rgb8>>, FrameError>(f@.rows)
                    &&& f@.width == width
                    &&& f@.height == height
                    &&& well_shaped(f@)
                },
                Err(e) => spec_assemble(width, height, results@) == Err::<Seq<Seq<Rgb8>>, FrameError>(e),
            },
    {
        let ghost rs = results@;
        // slot[y] is the index of the entry that fills row y, once one has.
        let mut slot: Vec<Option<usize>> = Vec::new();
        let mut y: u32 = 0;
        while y < height
            invariant
                y <= height,
                slot@.len() == y,
                forall|z: int| 0 <= z < y ==> #[trigger] slot@[z] is None,
            decreases height - y,
        {
            slot.push(None);
            y = y + 1;
        }
        let mut i: usize = 0;
        while i < results.len()
            invariant
                rs == results@,
                i <= rs.len(),
                slot@.len() == height,
                first_fault(width, height, rs.take(i as int)) is None,
                forall|z: int|
                    0 <= z < height && #[trigger] slot@[z] is Some ==> {
                        let j = slot@[z].unwrap() as int;
                        0 <= j < i && rs[j].row == z
                    },
                forall|z: int|
                    0 <= z < height && #[trigger] slot@[z] is None ==> forall|j: int|
                        0 <= j < i ==> #[trigger] rs[j].row != z,
            decreases rs.len() - i,
        {
            let row = results[i].row;
            let ghost next = rs.take(i + 1);
            proof {
                assert(next.drop_last() =~= rs.take(i as int));
                assert forall|j: int| 0 <= j <= i implies #[trigger] next[j] == rs[j] by {}
            }
            if row >= height {
                proof {
                    lemma_fault_in_prefix(width, height, rs, i + 1);
                }
                return Err(FrameError::RowOutOfRange { row });
            }
            if results[i].pixels.len() != width as usize {
                proof {
                    lemma_fault_in_prefix(width, height, rs, i + 1);
                }
                return Err(FrameError::WrongRowLength { row });
            }
            match slot[row as usize] {
                Some(j) => {
                    proof {
                        assert(next[j as int].row == row);
                        lemma_fault_in_prefix(width, height, rs, i + 1);
                    }
                    return Err(FrameError::DuplicateRow { row });
                },
                None => {
                    proof {
                        assert(!exists|j: int| 0 <= j < i && #[trigger] next[j].row == row);
                    }
                    slot.set(row as usize, Some(i));
                },
            }
            i = i + 1;
        }
        proof {
            assert(rs.take(i as int) =~= rs);
            lemma_no_fault(width, height, rs);
        }
        let mut rows: Vec<Vec<Rgb8>> = Vec::new();
        let mut y: u32 = 0;
        while y < height
            invariant
                rs == results@,
                first_fault(width, height, rs) is None,
                forall|k: int| 0 <= k < rs.len() ==> (#[trigger] rs[k].pixels@).len() == width,
                forall|j: int, k: int|
                    0 <= j < rs.len() && 0 <= k < rs.len() && j != k ==> rs[j].row != rs[k].row,
                y <= height,
                slot@.len() == height,
                forall|z: int|
                    0 <= z < height && #[trigger] slot@[z] is Some ==> {
                        let j = slot@[z].unwrap() as int;
                        0 <= j < rs.len() && rs[j].row == z
                    },
                forall|z: int|
                    0 <= z < height && #[trigger] slot@[z] is None ==> forall|j: int|
                        0 <= j < rs.len() ==> #[trigger] rs[j].row != z,
                rows@.len() == y,
                forall|z: int| 0 <= z < y ==> covers(rs, z),
                forall|z: int| 0 <= z < y ==> (#[trigger] rows@[z])@ == pixels_of_row(rs, z),
                forall|z: int| 0 <= z < y ==> (#[trigger] rows@[z])@.len() == width,
            decreases height - y,
        {
            match slot[y as usize] {
                None => {
                    proof {
                        assert(!covers(rs, y as int));
                        assert(first_missing(height, rs, y as int));
                        lemma_first_missing_unique(height, rs, y as int);
                    }
                    return Err(FrameError::MissingRow { row: y });
                },
                Some(j) => {
                    let pixels = copy_row(&results[j].pixels);
                    proof {
                        assert(rs[j as int].row == y);
                        lemma_pixels_of_unique_row(rs, j as int);
                    }
                    rows.push(pixels);
                },
            }
            y = y + 1;
        }
        proof {
            let mv = rows@.map_values(|r: Vec<Rgb8>| r@);
            assert forall|z: int| 0 <= z < height implies (#[trigger] mv[z]).len() == width by {
                assert(rows@[z]@.len() == width);
            }
        }
        let f = Frame { width, height, rows };
        proof {
            assert(!exists|z: int| 0 <= z < height && !covers(rs, z));
            assert(f@.rows =~= assembled_rows(height, rs));
        }
        Ok(f)
    }

    /// The frame's width in pixels.
    pub fn width(&self) -> (r: u32)
        ensures
            r == self@.width,
    {
        self.width
    }

    /// The frame's height in rows.
    pub fn height(&self) -> (r: u32)
        ensures
            r == self@.height,
    {
        self.height
    }

    /// The pixel in column `x` of row `y`, counted from the top left, or
    /// `None` outside the frame.
    pub fn pixel(&self, x: u32, y: u32) -> (r: Option<Rgb8>)
        ensures
            well_shaped(self@),
            r == (if x < self@.width && y < self@.height {
                Some(self@.rows[y as int][x as int])
            } else {
                None
            }),
    {
        proof {
            use_type_invariant(self);
        }
        if x < self.width && y < self.height {
            assert(self.rows@[y as int]@ == self@.rows[y as int]);
            Some(self.rows[y as usize][x as usize])
        } else {
            None
        }
    }

    /// The frame as bytes, three per pixel, row after row from the top.
    pub fn to_bytes(&self) -> (r: Vec<u8>)
        ensures
            r@ == frame_bytes(self@.rows),
            r@.len() == 3 * self@.width * self@.height,
    {
        proof {
            use_type_invariant(self);
        }
        let ghost rows = self@.rows;
        let mut out: Vec<u8> = Vec::new();
        let mut y: usize = 0;
        while y < self.rows.len()
            invariant
                rows == self@.rows,
                well_shaped(self@),
                y <= rows.len(),
                out@ == frame_bytes(rows.take(y as int)),
            decreases rows.len() - y,
        {
            let row = &self.rows[y];
            let ghost cur = rows[y as int];
            assert(row@ == cur);
            let mut x: usize = 0;
            while x < row.len()
                invariant
                    row@ == cur,
                    x <= cur.len(),
                    out@ == frame_bytes(rows.take(y as int)) + row_bytes(cur.take(x as int)),
                decreases cur.len() - x,
            {
                let p = row[x];
                let ghost before = out@;
                out.push(p.r);
                out.push(p.g);
                out.push(p.b);
                proof {
                    assert(cur.take(x + 1).drop_last() =~= cur.take(x as int));
                    assert(out@ =~= before + pixel_bytes(p));
                    assert(out@ =~= frame_bytes(rows.take(y as int)) + (row_bytes(cur.take(x as int))
                        + pixel_bytes(p)));
                }
                x = x + 1;
            }
            proof {
                assert(cur.take(x as int) =~= cur);
                assert(rows.take(y + 1).drop_last() =~= rows.take(y as int));
            }
            y = y + 1;
        }
        proof {
            assert(rows.take(y as int) =~= rows);
            lemma_frame_bytes_len(rows, self@.width);
        }
        out
    }
}

} // verus!
