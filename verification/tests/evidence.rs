use datacenter_simulator::evidence::{hex_text, mapped, FileIdentity, NcclLibraries};
use datacenter_simulator::model::Error;

#[test]
fn identity_is_the_lower_case_sha256_of_the_contents() {
    let id = FileIdentity::of("/opt/nccl/lib/libnccl.so.2".into(), b"abc");
    assert_eq!(id.sha256, "ba7816bf8f01cfea414140de5dae2223b00361a396177a9cb410ff61f20015ad");
    assert_eq!(id.path, "/opt/nccl/lib/libnccl.so.2");
    let empty = FileIdentity::of("/empty".into(), b"");
    assert_eq!(empty.sha256, "e3b0c44298fc1c149afbf4c8996fb92427ae41e4649b934ca495991b7852b855");
    assert_eq!(hex_text(&vec![0x00, 0xab, 0xff]), "00abff");
}

#[test]
fn changed_contents_or_paths_are_conflicts() {
    let before = FileIdentity::of("/lib/libcuda.so".into(), b"one");
    assert!(before.verify(&FileIdentity::of("/lib/libcuda.so".into(), b"one")).is_ok());
    assert!(matches!(
        before.verify(&FileIdentity::of("/lib/libcuda.so".into(), b"two")),
        Err(Error::Conflict(_))
    ));
    assert!(before.verify(&FileIdentity::of("/tmp/libcuda.so".into(), b"one")).is_err());
    let libs = NcclLibraries {
        nccl: FileIdentity::of("/lib/libnccl.so".into(), b"n"),
        cuda: before.clone(),
    };
    assert!(libs.verify(&libs.nccl.clone(), &before).is_ok());
    assert!(libs
        .verify(&libs.nccl.clone(), &FileIdentity::of("/lib/libcuda.so".into(), b"x"))
        .is_err());
}

const MAPS: &str = "55d0-55d1 r--p 00000000 08:01 42 /usr/bin/worker\n\
7f00-7f10 r-xp 00000000 08:01 1234   /usr/lib/libnccl.so.2\n\
7f20-7f30 r-xp 00001000 08:01 99 /opt/cuda  libs/libcuda.so.1\n\
7ffd-7ffe rw-p 00000000 00:00 0 [stack]\n";

#[test]
fn process_maps_name_libraries_after_five_fields() {
    assert!(mapped(MAPS, "/usr/lib/libnccl.so.2"));
    assert!(mapped(MAPS, "/opt/cuda libs/libcuda.so.1"));
    assert!(!mapped(MAPS, "/usr/lib/libnccl.so"));
    assert!(!mapped(MAPS, "libnccl.so.2"));
    assert!(!mapped("", "/usr/lib/libnccl.so.2"));
    assert!(mapped("a b c d e\r\n", ""));
    assert!(!mapped("a b c d e\n", "e"));
}

#[test]
fn mapped_libraries_must_keep_their_identity() {
    let nccl = FileIdentity::of("/usr/lib/libnccl.so.2".into(), b"nccl");
    let cuda = FileIdentity::of("/opt/cuda libs/libcuda.so.1".into(), b"cuda");
    let libs = NcclLibraries { nccl: nccl.clone(), cuda: cuda.clone() };
    assert!(libs.verify_mapped(MAPS, true, &nccl, &cuda).is_ok());
    assert!(libs.verify_mapped(MAPS, false, &nccl, &nccl).is_ok());
    assert!(matches!(libs.verify_mapped(MAPS, true, &nccl, &nccl), Err(Error::Conflict(_))));
    let moved = NcclLibraries {
        nccl: FileIdentity::of("/tmp/libnccl.so.2".into(), b"nccl"),
        cuda,
    };
    assert!(moved.verify_mapped(MAPS, false, &moved.nccl.clone(), &nccl).is_err());
}
