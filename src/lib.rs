pub mod affix_rules;
pub mod answer_cache;
pub mod candidates;
pub mod dictionary_loader;
pub mod rule_map;
pub mod spell_checker;
pub mod text;
pub mod trie;

pub use crate::affix_rules::{AffixEntry, AffixRule, AffixRules};
pub use crate::candidates::{BaseWordSet, CandidateBuf};
pub use crate::dictionary_loader::{DictionaryLoader, LoadError};
pub use crate::spell_checker::SpellChecker;
pub use crate::trie::{Trie, TrieNode};
