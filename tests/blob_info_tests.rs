use blob_morph::blob_info::{BlobInfo, DEFAULT_INFO_COLOR};

#[test]
fn info_starts_unset() {
    let info = BlobInfo::default();
    assert_eq!(info.center, None);
    assert_eq!(info.xbound, None);
    assert_eq!(info.ybound, None);
    assert_eq!(info.color, DEFAULT_INFO_COLOR);
}

#[test]
fn info_spans_every_added_segment() {
    let mut info = BlobInfo::default();
    info.init([0, 0], [50, 50]);
    assert_eq!(info.center, Some([0, 0]));
    assert_eq!(info.xbound, Some([-50, 50]));
    assert_eq!(info.ybound, Some([-50, 50]));
    info.add([0, 75], [25, 25]);
    assert_eq!(info.xbound, Some([-50, 50]));
    assert_eq!(info.ybound, Some([-50, 100]));
    info.add([-120, 0], [30, 10]);
    assert_eq!(info.xbound, Some([-150, 50]));
    assert_eq!(info.ybound, Some([-50, 100]));
    assert_eq!(info.center, Some([0, 0]));
}

#[test]
fn adding_to_an_unset_info_takes_the_segment() {
    let mut info = BlobInfo::default();
    info.add([10, 20], [1, 2]);
    assert_eq!(info.xbound, Some([9, 11]));
    assert_eq!(info.ybound, Some([18, 22]));
    assert_eq!(info.center, None);
}
