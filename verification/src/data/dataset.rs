//! The MNIST dataset, parsed from the standard IDX byte format.
use crate::errors::TorchError;
use vstd::prelude::*;

verus! {

/// Selects the standard MNIST training or test split.
#[derive(Clone, Copy, Debug, PartialEq, Eq, Structural)]
pub enum MnistSplit {
    Train,
    Test,
}

impl MnistSplit {
    /// The image and label file names of the split.
    pub fn file_names(self) -> (r: (&'static str, &'static str))
        ensures
            self == MnistSplit::Train ==> r.0@ == "train-images.idx3-ubyte"@ && r.1@
                == "train-labels.idx1-ubyte"@,
            self == MnistSplit::Test ==> r.0@ == "t10k-images.idx3-ubyte"@ && r.1@
                == "t10k-labels.idx1-ubyte"@,
    {
        match self {
            MnistSplit::Train => ("train-images.idx3-ubyte", "train-labels.idx1-ubyte"),
            MnistSplit::Test => ("t10k-images.idx3-ubyte", "t10k-labels.idx1-ubyte"),
        }
    }
}

/// The big-endian 32-bit word at `off`.
pub open spec fn be_u32(b: Seq<u8>, off: int) -> nat {
    (b[off] as nat) * 16777216 + (b[off + 1] as nat) * 65536 + (b[off + 2] as nat) * 256 + (
    b[off + 3] as nat)
}

/// The magic number of an IDX image file.
pub open spec fn image_magic() -> nat {
    2051
}

/// The magic number of an IDX label file.
pub open spec fn label_magic() -> nat {
    2049
}

/// `b` is a well-formed IDX image file: a 16-byte header (magic, count, rows,
/// columns) followed by exactly `count * rows * cols` pixel bytes.
pub open spec fn idx_images_valid(b: Seq<u8>) -> bool {
    &&& b.len() >= 16
    &&& be_u32(b, 0) == image_magic()
    &&& be_u32(b, 8) > 0
    &&& be_u32(b, 12) > 0
    &&& be_u32(b, 8) * be_u32(b, 12) <= usize::MAX
    &&& b.len() == 16 + be_u32(b, 4) * (be_u32(b, 8) * be_u32(b, 12))
}

/// `b` is a well-formed IDX label file: an 8-byte header (magic, count)
/// followed by exactly `count` label bytes.
pub open spec fn idx_labels_valid(b: Seq<u8>) -> bool {
    &&& b.len() >= 8
    &&& be_u32(b, 0) == label_magic()
    &&& b.len() == 8 + be_u32(b, 4)
}

/// Read the big-endian 32-bit header field at `offset`.
pub fn read_be_u32(bytes: &[u8], offset: usize, field: &str) -> (r: u32)
    requires
        offset + 4 <= bytes@.len(),
    ensures
        r == be_u32(bytes@, offset as int),
{
    let b0 = bytes[offset] as u32;
    let b1 = bytes[offset + 1] as u32;
    let b2 = bytes[offset + 2] as u32;
    let b3 = bytes[offset + 3] as u32;
    b0 * 16777216 + b1 * 65536 + b2 * 256 + b3
}

/// The bytes from `start` on, copied.
fn tail_bytes(bytes: &[u8], start: usize) -> (r: Vec<u8>)
    requires
        start <= bytes@.len(),
    ensures
        r@ == bytes@.skip(start as int),
{
    let mut out: Vec<u8> = Vec::with_capacity(bytes.len() - start);
    let mut i = start;
    while i < bytes.len()
        invariant
            start <= i <= bytes@.len(),
            out@ == bytes@.subrange(start as int, i as int),
        decreases bytes@.len() - i,
    {
        out.push(bytes[i]);
        i += 1;
        assert(out@ =~= bytes@.subrange(start as int, i as int));
    }
    assert(out@ =~= bytes@.skip(start as int));
    out
}

/// Parse an IDX image file into its pixel bytes, rows and columns.
pub fn read_idx_images(bytes: &[u8]) -> (r: Result<(Vec<u8>, usize, usize), TorchError>)
    ensures
        r is Ok <==> idx_images_valid(bytes@),
        r matches Ok(v) ==> v.0@ == bytes@.skip(16) && v.1 == be_u32(bytes@, 8) && v.2 == be_u32(
            bytes@,
            12,
        ),
{
    if bytes.len() < 16 {
        return Err(TorchError::validation(String::from_str("MNIST image file is shorter than its IDX header.")));
    }
    let magic = read_be_u32(bytes, 0, "image magic");
    if magic != 2051 {
        return Err(TorchError::validation(String::from_str("Unsupported MNIST image magic.")));
    }
    let count = read_be_u32(bytes, 4, "image count") as usize;
    let rows = read_be_u32(bytes, 8, "image rows") as usize;
    let cols = read_be_u32(bytes, 12, "image columns") as usize;
    if rows == 0 || cols == 0 {
        return Err(TorchError::validation(String::from_str("MNIST image dimensions must be nonzero.")));
    }
    let image_numel = match rows.checked_mul(cols) {
        Some(v) => v,
        None => {
            return Err(TorchError::validation(String::from_str("MNIST image dimensions overflow.")));
        },
    };
    let payload = match count.checked_mul(image_numel) {
        Some(v) => v,
        None => {
            return Err(TorchError::validation(String::from_str("MNIST image payload size overflows.")));
        },
    };
    let expected = match payload.checked_add(16) {
        Some(v) => v,
        None => {
            return Err(TorchError::validation(String::from_str("MNIST image file size overflows.")));
        },
    };
    if bytes.len() != expected {
        return Err(TorchError::validation(String::from_str("MNIST image file has an unexpected length.")));
    }
    Ok((tail_bytes(bytes, 16), rows, cols))
}

/// Parse an IDX label file into its label bytes.
pub fn read_idx_labels(bytes: &[u8]) -> (r: Result<Vec<u8>, TorchError>)
    ensures
        r is Ok <==> idx_labels_valid(bytes@),
        r matches Ok(v) ==> v@ == bytes@.skip(8),
{
    if bytes.len() < 8 {
        return Err(TorchError::validation(String::from_str("MNIST label file is shorter than its IDX header.")));
    }
    let magic = read_be_u32(bytes, 0, "label magic");
    if magic != 2049 {
        return Err(TorchError::validation(String::from_str("Unsupported MNIST label magic.")));
    }
    let count = read_be_u32(bytes, 4, "label count") as usize;
    if bytes.len() - 8 != count {
        return Err(TorchError::validation(String::from_str("MNIST label file has an unexpected length.")));
    }
    Ok(tail_bytes(bytes, 8))
}

/// In-memory MNIST: raw image bytes (`rows * cols` per image, row-major) and
/// one label byte per image.
pub struct MNISTDataset {
    images: Vec<u8>,
    labels: Vec<u8>,
    rows: usize,
    cols: usize,
}

impl MNISTDataset {
    pub closed spec fn images_view(&self) -> Seq<u8> {
        self.images@
    }

    pub closed spec fn labels_view(&self) -> Seq<u8> {
        self.labels@
    }

    pub closed spec fn rows_view(&self) -> nat {
        self.rows as nat
    }

    pub closed spec fn cols_view(&self) -> nat {
        self.cols as nat
    }

    /// One image of `rows * cols` bytes per label.
    pub open spec fn wf(&self) -> bool {
        &&& self.rows_view() > 0
        &&& self.cols_view() > 0
        &&& self.rows_view() * self.cols_view() <= usize::MAX
        &&& self.images_view().len() <= usize::MAX
        &&& self.images_view().len() == self.labels_view().len() * (self.rows_view()
            * self.cols_view())
    }

    /// Build the dataset from the contents of an IDX image file and an IDX
    /// label file; fails when either is malformed or their counts differ.
    pub fn new(image_bytes: &[u8], label_bytes: &[u8]) -> (r: Result<Self, TorchError>)
        ensures
            r is Ok <==> (idx_images_valid(image_bytes@) && idx_labels_valid(label_bytes@)
                && be_u32(image_bytes@, 4) == be_u32(label_bytes@, 4)),
            r matches Ok(d) ==> {
                &&& d.wf()
                &&& d.images_view() == image_bytes@.skip(16)
                &&& d.labels_view() == label_bytes@.skip(8)
                &&& d.rows_view() == be_u32(image_bytes@, 8)
                &&& d.cols_view() == be_u32(image_bytes@, 12)
            },
    {
        let (images, rows, cols) = match read_idx_images(image_bytes) {
            Ok(v) => v,
            Err(e) => {
                return Err(e);
            },
        };
        let labels = match read_idx_labels(label_bytes) {
            Ok(v) => v,
            Err(e) => {
                return Err(e);
            },
        };
        let ghost count = be_u32(image_bytes@, 4);
        proof {
            vstd::arithmetic::mul::lemma_mul_strictly_positive(rows as int, cols as int);
            vstd::arithmetic::div_mod::lemma_div_multiples_vanish(count as int, (rows * cols) as int);
            assert(count * (rows * cols) == (rows * cols) * count) by (nonlinear_arith);
            assert(rows * cols <= images@.len() + 1 || count == 0) by (nonlinear_arith)
                requires
                    images@.len() == count * (rows * cols),
            ;
        }
        if images.len() / (rows * cols) != labels.len() {
            proof {
                assert(images@.len() / ((rows * cols) as nat) == count);
            }
            return Err(TorchError::validation(String::from_str("MNIST image/label count mismatch.")));
        }
        Ok(MNISTDataset { images, labels, rows, cols })
    }

    /// Image height in pixels.
    pub fn rows(&self) -> (r: usize)
        ensures
            r == self.rows_view(),
    {
        self.rows
    }

    /// Image width in pixels.
    pub fn cols(&self) -> (r: usize)
        ensures
            r == self.cols_view(),
    {
        self.cols
    }

    /// Number of images.
    pub fn len(&self) -> (r: usize)
        ensures
            r == self.labels_view().len(),
    {
        self.labels.len()
    }

    pub fn is_empty(&self) -> (r: bool)
        ensures
            r == (self.labels_view().len() == 0),
    {
        self.labels.len() == 0
    }

    /// The shape `[1, rows, cols]` of one image.
    pub fn image_shape(&self) -> (r: Vec<usize>)
        ensures
            r@ == seq![1usize, self.rows_view() as usize, self.cols_view() as usize],
    {
        vec![1, self.rows, self.cols]
    }

    /// Pixel bytes of one image.
    pub fn image_numel(&self) -> (r: usize)
        requires
            self.wf(),
            self.labels_view().len() > 0,
        ensures
            r == self.rows_view() * self.cols_view(),
    {
        self.rows * self.cols
    }

    /// The raw pixel bytes and the label of item `index`.
    pub fn get_item(&self, index: usize) -> (r: (Vec<u8>, u8))
        requires
            self.wf(),
            index < self.labels_view().len(),
        ensures
            r.0@ == self.images_view().subrange(
                index * (self.rows_view() * self.cols_view()),
                (index + 1) * (self.rows_view() * self.cols_view()),
            ),
            r.1 == self.labels_view()[index as int],
    {
        let numel = self.image_numel();
        proof {
            vstd::arithmetic::mul::lemma_mul_inequality(index as int + 1, self.labels@.len() as int, numel as int);
            assert((index + 1) * numel == index * numel + numel) by (nonlinear_arith);
            assert(self.labels@.len() * numel == numel * self.labels@.len()) by (nonlinear_arith);
        }
        let start = index * numel;
        let end = start + numel;
        let mut out: Vec<u8> = Vec::with_capacity(numel);
        let mut i = start;
        while i < end
            invariant
                start <= i <= end,
                end <= self.images@.len(),
                out@ == self.images@.subrange(start as int, i as int),
            decreases end - i,
        {
            out.push(self.images[i]);
            i += 1;
            assert(out@ =~= self.images@.subrange(start as int, i as int));
        }
        (out, self.labels[index])
    }
}

/// The byte offsets, below `n`, at which a line of a CSV text starts after
/// its first (header) line: every position that follows a `\n`.
pub open spec fn line_starts_below(b: Seq<u8>, n: int) -> Seq<u64>
    decreases n,
{
    if n <= 1 {
        Seq::empty()
    } else if b[n - 2] == 10 {
        line_starts_below(b, n - 1).push((n - 1) as u64)
    } else {
        line_starts_below(b, n - 1)
    }
}

/// The lookup table of a CSV file's records: the offset of every line after
/// the header, in order. A line ends at `\n` or at the end of the text; no
/// entry is made for the end of the text itself.
pub fn build_lut(bytes: &[u8]) -> (r: Vec<u64>)
    requires
        bytes@.len() <= u64::MAX,
    ensures
        r@ == line_starts_below(bytes@, bytes@.len() as int),
{
    let mut lut: Vec<u64> = Vec::new();
    let mut p: usize = 1;
    while p < bytes.len()
        invariant
            bytes@.len() <= u64::MAX,
            1 <= p,
            p <= bytes@.len() || p == 1,
            lut@ == line_starts_below(bytes@, p as int),
        decreases bytes@.len() - p,
    {
        if bytes[p - 1] == 10u8 {
            lut.push(p as u64);
        }
        p += 1;
    }
    proof {
        if bytes@.len() == 0 {
            assert(line_starts_below(bytes@, 0) =~= line_starts_below(bytes@, 1));
        }
    }
    lut
}

} // verus!
