//! The Rust sources the corpus holds as producer inputs, built as part of the library.
pub mod binding_from_bound_name;
pub mod binding_from_return_type;
pub mod call_chain_decoy;
pub mod declaration_forms;
pub mod declaration_forms_inner;
pub mod declaration_moved;
pub mod expansion_invisible;
pub mod export_surface;
pub mod folded_call_sites;
pub mod generic_declarations;
pub mod generic_receiver;
pub mod impl_collision;
pub mod inherent_implementation;
pub mod local_rebinding;
pub mod parameter_type_changed;
pub mod private_helper_added;
pub mod recursive_call;
pub mod remaining_forms;
pub mod remaining_forms_deep;
pub mod same_file_local;
pub mod same_file_outsider;
pub mod same_name_alpha;
pub mod same_name_beta;
pub mod spec_code_test_links;
pub mod trait_implementation;
pub mod visibility_forms;
pub mod visibility_forms_inner;
