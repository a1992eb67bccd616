use minitorch_rust::data::dataset::build_lut;
use minitorch_rust::data::dataloader::{num_batches_for, MnistDataLoader};
use minitorch_rust::data::dataset::{read_be_u32, read_idx_images, read_idx_labels, MNISTDataset, MnistSplit};
use minitorch_rust::errors::ErrorKind;

fn be(v: u32) -> [u8; 4] {
    v.to_be_bytes()
}

fn image_file(count: u32, rows: u32, cols: u32, pixels: &[u8]) -> Vec<u8> {
    let mut b = Vec::new();
    b.extend_from_slice(&be(2051));
    b.extend_from_slice(&be(count));
    b.extend_from_slice(&be(rows));
    b.extend_from_slice(&be(cols));
    b.extend_from_slice(pixels);
    b
}

fn label_file(labels: &[u8]) -> Vec<u8> {
    let mut b = Vec::new();
    b.extend_from_slice(&be(2049));
    b.extend_from_slice(&be(labels.len() as u32));
    b.extend_from_slice(labels);
    b
}

fn dataset(count: usize) -> MNISTDataset {
    let pixels: Vec<u8> = (0..count * 4).map(|i| i as u8).collect();
    let labels: Vec<u8> = (0..count).map(|i| (i % 10) as u8).collect();
    MNISTDataset::new(&image_file(count as u32, 2, 2, &pixels), &label_file(&labels)).unwrap()
}

#[test]
fn big_endian_words() {
    assert_eq!(read_be_u32(&[0, 0, 8, 3, 9], 0, "magic"), 2051);
    assert_eq!(read_be_u32(&[9, 1, 2, 3, 4], 1, "x"), 0x01020304);
}

#[test]
fn split_file_names() {
    assert_eq!(MnistSplit::Train.file_names(), ("train-images.idx3-ubyte", "train-labels.idx1-ubyte"));
    assert_eq!(MnistSplit::Test.file_names(), ("t10k-images.idx3-ubyte", "t10k-labels.idx1-ubyte"));
}

#[test]
fn parses_valid_idx_files() {
    let (pixels, rows, cols) = read_idx_images(&image_file(2, 1, 3, &[1, 2, 3, 4, 5, 6])).unwrap();
    assert_eq!((rows, cols), (1, 3));
    assert_eq!(pixels, vec![1, 2, 3, 4, 5, 6]);
    assert_eq!(read_idx_labels(&label_file(&[7, 8])).unwrap(), vec![7, 8]);
}

#[test]
fn rejects_malformed_idx_files() {
    let short = read_idx_images(&[0, 0, 8, 3]);
    assert_eq!(short.unwrap_err().kind, ErrorKind::ValidationError);
    let mut bad_magic = image_file(1, 1, 1, &[0]);
    bad_magic[3] = 4;
    assert!(read_idx_images(&bad_magic).is_err());
    assert!(read_idx_images(&image_file(1, 0, 1, &[])).is_err());
    assert!(read_idx_images(&image_file(2, 1, 1, &[0])).is_err());
    assert!(read_idx_labels(&[0, 0, 8, 1, 0, 0, 0, 5, 1]).is_err());
    assert!(read_idx_labels(&[0, 0, 8, 1]).is_err());
    let mut labels = label_file(&[1, 2]);
    labels[3] = 3;
    assert!(read_idx_labels(&labels).is_err());
}

#[test]
fn dataset_items_and_shape() {
    let d = dataset(3);
    assert_eq!(d.len(), 3);
    assert!(!d.is_empty());
    assert_eq!(d.image_shape(), vec![1, 2, 2]);
    let (img, label) = d.get_item(1);
    assert_eq!(img, vec![4, 5, 6, 7]);
    assert_eq!(label, 1);
}

#[test]
fn dataset_count_mismatch_is_an_error() {
    let images = image_file(2, 1, 1, &[1, 2]);
    let labels = label_file(&[1, 2, 3]);
    let err = MNISTDataset::new(&images, &labels).err().unwrap();
    assert_eq!(err.kind, ErrorKind::ValidationError);
    assert!(err.to_string().contains("ValidationError"));
}

#[test]
fn batch_counts_round_up() {
    assert_eq!(num_batches_for(10, 3), 4);
    assert_eq!(num_batches_for(9, 3), 3);
    assert_eq!(num_batches_for(0, 3), 0);
    assert_eq!(num_batches_for(1, 5), 1);
}

#[test]
fn unshuffled_batches_in_order() {
    let loader = MnistDataLoader::new(dataset(5), 2, false, 7);
    assert_eq!(loader.len(), 3);
    assert_eq!(loader.size(), 3);
    assert!(!loader.is_empty());
    let (images, labels) = loader.get_batch(2);
    assert_eq!(images.shape, vec![1, 1, 2, 2]);
    assert_eq!(*images.buffer, vec![16, 17, 18, 19]);
    assert_eq!(*labels.buffer, vec![4]);
    let (_, first) = loader.get_batch(0);
    assert_eq!(*first.buffer, vec![0, 1]);
}

#[test]
fn shuffled_order_is_a_permutation() {
    let n = 64;
    let mut loader = MnistDataLoader::new(dataset(n), n, true, 42);
    let (_, labels) = loader.get_batch(0);
    let mut seen: Vec<u8> = labels.buffer.to_vec();
    let identity: Vec<u8> = (0..n).map(|i| (i % 10) as u8).collect();
    assert_ne!(seen, identity);
    seen.sort();
    let mut sorted = identity.clone();
    sorted.sort();
    assert_eq!(seen, sorted);
    loader.reshuffle();
    let (_, again) = loader.get_batch(0);
    let mut again: Vec<u8> = again.buffer.to_vec();
    again.sort();
    assert_eq!(again, sorted);
}

#[test]
fn csv_lookup_table_skips_the_header() {
    assert_eq!(build_lut(b"h\na\nb"), vec![2, 4]);
    assert_eq!(build_lut(b"h\na\n"), vec![2]);
    assert_eq!(build_lut(b"only"), Vec::<u64>::new());
    assert_eq!(build_lut(b""), Vec::<u64>::new());
    assert_eq!(build_lut(b"\n\n"), vec![1]);
    assert_eq!(build_lut(b"id,x\n1,2\n3,4\n"), vec![5, 9]);
}
