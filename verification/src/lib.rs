//! A verified core for a scanned-document archive: deterministic batch
//! ordering, text assembly, a create-only content store, search-output
//! reduction, and one-way remote reconciliation.

mod assemble;
mod batch;
mod config;
mod errors;
mod ident;
mod names;
mod reconcile;
mod search;
mod store;

pub use assemble::assemble;
pub use assemble::assembled_body;
pub use batch::collect_batch;
pub use batch::is_hidden_name;
pub use batch::keeps_entry;
pub use batch::kept_names;
pub use batch::lemma_batch_excludes_hidden;
pub use batch::lemma_kept_names_membership;
pub use batch::lemma_lex_le_antisymmetric;
pub use batch::lemma_lex_le_total;
pub use batch::lemma_lex_le_trans;
pub use batch::lemma_sorted_names_unique;
pub use batch::lex_le;
pub use batch::name_sorted;
pub use batch::sort_names;
pub use batch::str_lex_le;
pub use config::Kartka;
pub use errors::KartkaError;
pub use ident::digit_char;
pub use ident::four_digits;
pub use ident::mint_from_reading;
pub use ident::mint_identifier;
pub use ident::mint_now;
pub use ident::minted_identifier;
pub use ident::two_digits;
pub use ident::TimeParts;
pub use names::contains_name;
pub use names::dedup_keep;
pub use names::dedup_new_names;
pub use names::lemma_dedup_keep_membership;
pub use names::lemma_dedup_keep_no_duplicates;
pub use reconcile::all_new;
pub use reconcile::insert_all;
pub use reconcile::lemma_hydrate_convergence;
pub use reconcile::lemma_insert_all_domain;
pub use reconcile::lemma_missing_all_new;
pub use reconcile::lemma_missing_empty_when_covered;
pub use reconcile::lemma_store_convergence;
pub use reconcile::lemma_store_ids_are_domain;
pub use reconcile::missing_identifiers;
pub use search::after_last_slash;
pub use search::basename;
pub use search::hit_fields_of;
pub use search::lemma_match_identifiers_characterization;
pub use search::match_identifiers;
pub use search::match_identifiers_of;
pub use search::parse_hits;
pub use search::preview_link;
pub use search::query_is_searchable;
pub use search::search_identifiers;
pub use search::search_identifiers_of;
pub use search::SearchHit;
pub use store::lemma_map_of_records_domain;
pub use store::lemma_map_of_records_index;
pub use store::lemma_put_uniqueness;
pub use store::map_of_records;
pub use store::put_accepts;
pub use store::put_result;
pub use store::ContentRecord;
pub use store::ContentStore;
