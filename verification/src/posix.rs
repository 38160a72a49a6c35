//! The error numbers that the kernel gets.

use vstd::prelude::*;

verus! {

/// `libc::EACCES`: permission denied. Linux gives it the number 13.
#[verifier::external_body]
pub(crate) fn eacces() -> (r: i32)
    ensures
        r == 13,
{
    libc::EACCES
}

/// `libc::ENOENT`: no such file or directory. Linux gives it the number 2.
#[verifier::external_body]
pub(crate) fn enoent() -> (r: i32)
    ensures
        r == 2,
{
    libc::ENOENT
}

/// `libc::EEXIST`: the file exists. Linux gives it the number 17.
#[verifier::external_body]
pub(crate) fn eexist() -> (r: i32)
    ensures
        r == 17,
{
    libc::EEXIST
}

/// `libc::EXDEV`: a link across devices. Linux gives it the number 18.
#[verifier::external_body]
pub(crate) fn exdev() -> (r: i32)
    ensures
        r == 18,
{
    libc::EXDEV
}

/// `libc::EIO`: an input or output error. Linux gives it the number 5.
#[verifier::external_body]
pub(crate) fn eio() -> (r: i32)
    ensures
        r == 5,
{
    libc::EIO
}

/// `libc::EISDIR`: a directory, where none can be. Linux gives it the number 21.
#[verifier::external_body]
pub(crate) fn eisdir() -> (r: i32)
    ensures
        r == 21,
{
    libc::EISDIR
}

/// `libc::ENOTDIR`: not a directory, where one has to be. Linux gives it the number 20.
#[verifier::external_body]
pub(crate) fn enotdir() -> (r: i32)
    ensures
        r == 20,
{
    libc::ENOTDIR
}

} // verus!
