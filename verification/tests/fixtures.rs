use quire_corpus::fixtures::call_chain_decoy::decoy_entry;
use quire_corpus::fixtures::export_surface::Store as ExportStore;
use quire_corpus::fixtures::parameter_type_changed::Store as ChangedStore;
use quire_corpus::fixtures::recursive_call::{plain_recursion, Store as RecursiveStore};
use quire_corpus::fixtures::spec_code_test_links::Store;

#[test]
fn a_record_survives_a_round_trip() {
    let mut store = Store { count: 0 };
    store.upsert();
    assert_eq!(store.count, 1);
}

#[test]
fn decoy_is_independent() {
    assert_eq!(decoy_entry(), 2);
}

#[test]
fn recursion_reaches_zero() {
    assert_eq!(plain_recursion(5), 0);
    assert_eq!(RecursiveStore.recurse(3), 0);
}

#[test]
fn surface_methods_return_what_they_state() {
    assert_eq!(ExportStore.exported(7), 7);
    assert_eq!(ChangedStore.compute(0x1_0000_0005), 5);
}
