//! Deployment of configuration trees as symbolic links.
//!
//! A working directory holds source trees in directories whose names begin
//! with a `{slug,...}` marker. Each slug names a [`feature::Feature`]; the
//! first enabled feature of the registry that a directory names decides into
//! which target directory its files are linked. All source trees that share a
//! target form one [`link::LinkGroup`], in which every relative path belongs
//! to exactly one tree.
//!
//! The library decides; it never touches the file system. Its caller reports
//! what it found on disk and carries out the steps that the library hands
//! back. What those steps do to the tree below a target is modelled in
//! [`tree`], where linking is shown to be idempotent and unlinking to undo
//! it.
//!
//! One function is taken on trust: the expansion of `~` and `$VAR` in a
//! target, which `shellexpand` does. Everything else is verified.

pub mod text;

pub mod feature;

pub mod path;

pub mod link;

pub mod deploy;

pub mod tree;
