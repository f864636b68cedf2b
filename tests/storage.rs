use many_exec::address::Address;
use many_exec::backend::ExecutionBackend;
use many_exec::error::ErrorKind;
use many_exec::migration::{migrations, MigrationStep};
use many_exec::storage::{key_for_module_info, ModuleInfo, Record, Storage, StorageRef};

fn info() -> ModuleInfo {
    ModuleInfo::new(Address { bytes: [3; 32] }, b"m.wasm".to_vec(), b"m.mem".to_vec())
}

#[test]
fn module_info_key_layout() {
    let key = key_for_module_info(Address { bytes: [3; 32] });
    assert_eq!(&key[..12], b"module_info/");
    assert_eq!(&key[12..], &[3; 32]);
}

#[test]
fn created_reference_writes_back_its_final_value() {
    let storage = Storage::new(b"/tmp/store".to_vec());
    let mut r = storage.new_module_info(info());
    r.get_mut().version = 4;
    let (key, bytes) = r.release().unwrap();
    assert_eq!(key, key_for_module_info(Address { bytes: [3; 32] }));
    let back = storage.module_info(Address { bytes: [3; 32] }, Some(bytes)).unwrap();
    assert_eq!(back.get().version, 4);
    assert_eq!(back.get().module, b"m.wasm".to_vec());
    assert!(!back.is_dirty());
}

#[test]
fn untouched_loaded_reference_writes_nothing() {
    let bytes = info().encode();
    let r = StorageRef::<ModuleInfo>::load(b"k".to_vec(), Some(bytes)).unwrap().unwrap();
    assert_eq!(r.get(), &info());
    assert!(r.release().is_none());
}

#[test]
fn missing_and_garbled_module_info() {
    let storage = Storage::new(b"/tmp/store".to_vec());
    let a = Address { bytes: [3; 32] };
    assert_eq!(storage.module_info(a, None).err().unwrap().kind, ErrorKind::ModuleNotFound);
    assert_eq!(storage.module_info(a, Some(vec![0xff])).err().unwrap().kind, ErrorKind::DeserializationError);
    assert!(StorageRef::<ModuleInfo>::load(b"k".to_vec(), None).unwrap().is_none());
}

#[test]
fn new_module_info_is_version_zero() {
    assert_eq!(info().version, 0);
    assert_eq!(ModuleInfo::decode(&info().encode()), Some(info()));
}

#[test]
fn backend_keeps_its_storage_root() {
    let b = ExecutionBackend::new(b"/var/db".to_vec()).unwrap();
    assert_eq!(b.storage().root(), &b"/var/db".to_vec());
}

#[test]
fn migration_steps_in_order() {
    let mut step = MigrationStep::Quiesce;
    let mut seen = vec![step];
    while !step.is_finished() {
        step = step.next(true);
        seen.push(step);
    }
    assert_eq!(
        seen,
        vec![
            MigrationStep::Quiesce,
            MigrationStep::Copy,
            MigrationStep::Swap,
            MigrationStep::Reopen,
            MigrationStep::Cleanup,
            MigrationStep::Done
        ]
    );
}

#[test]
fn migration_failures() {
    assert_eq!(MigrationStep::Copy.next(false), MigrationStep::FailedIntact);
    assert_eq!(MigrationStep::Swap.next(false), MigrationStep::FailedIntact);
    assert_eq!(MigrationStep::Reopen.next(false), MigrationStep::FailedMigrated);
    assert!(MigrationStep::Cleanup.is_swapped());
    assert!(!MigrationStep::Copy.is_swapped());
}

#[test]
fn registry_holds_hash_migration() {
    let m = migrations();
    assert_eq!(m.len(), 1);
    assert_eq!(m[0].name, "Hash Migration");
}
