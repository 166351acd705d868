//! Verified core of a small command-line utility: conversion of
//! arbitrary-precision unsigned integers between decimal, hexadecimal and
//! binary text, and counting of non-blank lines with a traversal filter.

pub mod lines;
pub mod number;
pub mod walk;
