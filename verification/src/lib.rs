//! Verified core of a Go toolchain descriptor: conversion between Go's
//! native version spelling and canonical semantic versions, resolution of
//! download artifacts per platform, version-file scanning, and the release
//! catalog built from upstream tags.

pub mod laws;
pub mod platform;
pub mod strkit;
pub mod tags;
pub mod version;
pub mod version_file;
