//! The byte strings that the dispatcher matches and replies with.
use vstd::prelude::*;
use vstd::slice::slice_to_vec;

verus! {

/// `ping`
pub open spec fn word_ping() -> Seq<u8> {
    seq![112u8, 105u8, 110u8, 103u8]
}

pub(crate) fn ping_bytes() -> (r: Vec<u8>)
    ensures
        r@ == word_ping(),
{
    let a: [u8; 4] = [112u8, 105u8, 110u8, 103u8];
    let r = slice_to_vec(a.as_slice());
    assert(r@ =~= word_ping());
    r
}

/// `echo`
pub open spec fn word_echo() -> Seq<u8> {
    seq![101u8, 99u8, 104u8, 111u8]
}

pub(crate) fn echo_bytes() -> (r: Vec<u8>)
    ensures
        r@ == word_echo(),
{
    let a: [u8; 4] = [101u8, 99u8, 104u8, 111u8];
    let r = slice_to_vec(a.as_slice());
    assert(r@ =~= word_echo());
    r
}

/// `set`
pub open spec fn word_set() -> Seq<u8> {
    seq![115u8, 101u8, 116u8]
}

pub(crate) fn set_bytes() -> (r: Vec<u8>)
    ensures
        r@ == word_set(),
{
    let a: [u8; 3] = [115u8, 101u8, 116u8];
    let r = slice_to_vec(a.as_slice());
    assert(r@ =~= word_set());
    r
}

/// `get`
pub open spec fn word_get() -> Seq<u8> {
    seq![103u8, 101u8, 116u8]
}

pub(crate) fn get_bytes() -> (r: Vec<u8>)
    ensures
        r@ == word_get(),
{
    let a: [u8; 3] = [103u8, 101u8, 116u8];
    let r = slice_to_vec(a.as_slice());
    assert(r@ =~= word_get());
    r
}

/// `config`
pub open spec fn word_config() -> Seq<u8> {
    seq![99u8, 111u8, 110u8, 102u8, 105u8, 103u8]
}

pub(crate) fn config_bytes() -> (r: Vec<u8>)
    ensures
        r@ == word_config(),
{
    let a: [u8; 6] = [99u8, 111u8, 110u8, 102u8, 105u8, 103u8];
    let r = slice_to_vec(a.as_slice());
    assert(r@ =~= word_config());
    r
}

/// `keys`
pub open spec fn word_keys() -> Seq<u8> {
    seq![107u8, 101u8, 121u8, 115u8]
}

pub(crate) fn keys_bytes() -> (r: Vec<u8>)
    ensures
        r@ == word_keys(),
{
    let a: [u8; 4] = [107u8, 101u8, 121u8, 115u8];
    let r = slice_to_vec(a.as_slice());
    assert(r@ =~= word_keys());
    r
}

/// `px`
pub open spec fn word_px() -> Seq<u8> {
    seq![112u8, 120u8]
}

pub(crate) fn px_bytes() -> (r: Vec<u8>)
    ensures
        r@ == word_px(),
{
    let a: [u8; 2] = [112u8, 120u8];
    let r = slice_to_vec(a.as_slice());
    assert(r@ =~= word_px());
    r
}

/// `ex`
pub open spec fn word_ex() -> Seq<u8> {
    seq![101u8, 120u8]
}

pub(crate) fn ex_bytes() -> (r: Vec<u8>)
    ensures
        r@ == word_ex(),
{
    let a: [u8; 2] = [101u8, 120u8];
    let r = slice_to_vec(a.as_slice());
    assert(r@ =~= word_ex());
    r
}

/// `dir`
pub open spec fn word_dir() -> Seq<u8> {
    seq![100u8, 105u8, 114u8]
}

pub(crate) fn dir_bytes() -> (r: Vec<u8>)
    ensures
        r@ == word_dir(),
{
    let a: [u8; 3] = [100u8, 105u8, 114u8];
    let r = slice_to_vec(a.as_slice());
    assert(r@ =~= word_dir());
    r
}

/// `dbfilename`
pub open spec fn word_dbfilename() -> Seq<u8> {
    seq![100u8, 98u8, 102u8, 105u8, 108u8, 101u8, 110u8, 97u8, 109u8, 101u8]
}

pub(crate) fn dbfilename_bytes() -> (r: Vec<u8>)
    ensures
        r@ == word_dbfilename(),
{
    let a: [u8; 10] = [100u8, 98u8, 102u8, 105u8, 108u8, 101u8, 110u8, 97u8, 109u8, 101u8];
    let r = slice_to_vec(a.as_slice());
    assert(r@ =~= word_dbfilename());
    r
}

/// `PONG`
pub open spec fn word_pong() -> Seq<u8> {
    seq![80u8, 79u8, 78u8, 71u8]
}

pub(crate) fn pong_bytes() -> (r: Vec<u8>)
    ensures
        r@ == word_pong(),
{
    let a: [u8; 4] = [80u8, 79u8, 78u8, 71u8];
    let r = slice_to_vec(a.as_slice());
    assert(r@ =~= word_pong());
    r
}

/// `*`
pub open spec fn word_star() -> Seq<u8> {
    seq![42u8]
}

pub(crate) fn star_bytes() -> (r: Vec<u8>)
    ensures
        r@ == word_star(),
{
    let a: [u8; 1] = [42u8];
    let r = slice_to_vec(a.as_slice());
    assert(r@ =~= word_star());
    r
}

/// `ERR wrong number of arguments`
pub open spec fn msg_arity() -> Seq<u8> {
    seq![69u8, 82u8, 82u8, 32u8, 119u8, 114u8, 111u8, 110u8, 103u8, 32u8, 110u8, 117u8, 109u8, 98u8, 101u8, 114u8, 32u8, 111u8, 102u8, 32u8, 97u8, 114u8, 103u8, 117u8, 109u8, 101u8, 110u8, 116u8, 115u8]
}

pub(crate) fn msg_arity_bytes() -> (r: Vec<u8>)
    ensures
        r@ == msg_arity(),
{
    let a: [u8; 29] = [69u8, 82u8, 82u8, 32u8, 119u8, 114u8, 111u8, 110u8, 103u8, 32u8, 110u8, 117u8, 109u8, 98u8, 101u8, 114u8, 32u8, 111u8, 102u8, 32u8, 97u8, 114u8, 103u8, 117u8, 109u8, 101u8, 110u8, 116u8, 115u8];
    let r = slice_to_vec(a.as_slice());
    assert(r@ =~= msg_arity());
    r
}

/// `ERR expected a bulk string`
pub open spec fn msg_not_bulk() -> Seq<u8> {
    seq![69u8, 82u8, 82u8, 32u8, 101u8, 120u8, 112u8, 101u8, 99u8, 116u8, 101u8, 100u8, 32u8, 97u8, 32u8, 98u8, 117u8, 108u8, 107u8, 32u8, 115u8, 116u8, 114u8, 105u8, 110u8, 103u8]
}

pub(crate) fn msg_not_bulk_bytes() -> (r: Vec<u8>)
    ensures
        r@ == msg_not_bulk(),
{
    let a: [u8; 26] = [69u8, 82u8, 82u8, 32u8, 101u8, 120u8, 112u8, 101u8, 99u8, 116u8, 101u8, 100u8, 32u8, 97u8, 32u8, 98u8, 117u8, 108u8, 107u8, 32u8, 115u8, 116u8, 114u8, 105u8, 110u8, 103u8];
    let r = slice_to_vec(a.as_slice());
    assert(r@ =~= msg_not_bulk());
    r
}

/// `ERR invalid command format`
pub open spec fn msg_bad_request() -> Seq<u8> {
    seq![69u8, 82u8, 82u8, 32u8, 105u8, 110u8, 118u8, 97u8, 108u8, 105u8, 100u8, 32u8, 99u8, 111u8, 109u8, 109u8, 97u8, 110u8, 100u8, 32u8, 102u8, 111u8, 114u8, 109u8, 97u8, 116u8]
}

pub(crate) fn msg_bad_request_bytes() -> (r: Vec<u8>)
    ensures
        r@ == msg_bad_request(),
{
    let a: [u8; 26] = [69u8, 82u8, 82u8, 32u8, 105u8, 110u8, 118u8, 97u8, 108u8, 105u8, 100u8, 32u8, 99u8, 111u8, 109u8, 109u8, 97u8, 110u8, 100u8, 32u8, 102u8, 111u8, 114u8, 109u8, 97u8, 116u8];
    let r = slice_to_vec(a.as_slice());
    assert(r@ =~= msg_bad_request());
    r
}

/// `ERR value is not an integer`
pub open spec fn msg_not_integer() -> Seq<u8> {
    seq![69u8, 82u8, 82u8, 32u8, 118u8, 97u8, 108u8, 117u8, 101u8, 32u8, 105u8, 115u8, 32u8, 110u8, 111u8, 116u8, 32u8, 97u8, 110u8, 32u8, 105u8, 110u8, 116u8, 101u8, 103u8, 101u8, 114u8]
}

pub(crate) fn msg_not_integer_bytes() -> (r: Vec<u8>)
    ensures
        r@ == msg_not_integer(),
{
    let a: [u8; 27] = [69u8, 82u8, 82u8, 32u8, 118u8, 97u8, 108u8, 117u8, 101u8, 32u8, 105u8, 115u8, 32u8, 110u8, 111u8, 116u8, 32u8, 97u8, 110u8, 32u8, 105u8, 110u8, 116u8, 101u8, 103u8, 101u8, 114u8];
    let r = slice_to_vec(a.as_slice());
    assert(r@ =~= msg_not_integer());
    r
}

/// `Invalid number of arguments`
pub open spec fn msg_config_arity() -> Seq<u8> {
    seq![73u8, 110u8, 118u8, 97u8, 108u8, 105u8, 100u8, 32u8, 110u8, 117u8, 109u8, 98u8, 101u8, 114u8, 32u8, 111u8, 102u8, 32u8, 97u8, 114u8, 103u8, 117u8, 109u8, 101u8, 110u8, 116u8, 115u8]
}

pub(crate) fn msg_config_arity_bytes() -> (r: Vec<u8>)
    ensures
        r@ == msg_config_arity(),
{
    let a: [u8; 27] = [73u8, 110u8, 118u8, 97u8, 108u8, 105u8, 100u8, 32u8, 110u8, 117u8, 109u8, 98u8, 101u8, 114u8, 32u8, 111u8, 102u8, 32u8, 97u8, 114u8, 103u8, 117u8, 109u8, 101u8, 110u8, 116u8, 115u8];
    let r = slice_to_vec(a.as_slice());
    assert(r@ =~= msg_config_arity());
    r
}

/// `Unknown arguments`
pub open spec fn msg_unknown_param() -> Seq<u8> {
    seq![85u8, 110u8, 107u8, 110u8, 111u8, 119u8, 110u8, 32u8, 97u8, 114u8, 103u8, 117u8, 109u8, 101u8, 110u8, 116u8, 115u8]
}

pub(crate) fn msg_unknown_param_bytes() -> (r: Vec<u8>)
    ensures
        r@ == msg_unknown_param(),
{
    let a: [u8; 17] = [85u8, 110u8, 107u8, 110u8, 111u8, 119u8, 110u8, 32u8, 97u8, 114u8, 103u8, 117u8, 109u8, 101u8, 110u8, 116u8, 115u8];
    let r = slice_to_vec(a.as_slice());
    assert(r@ =~= msg_unknown_param());
    r
}

/// `Cannot Handle command `
pub open spec fn msg_unknown_command() -> Seq<u8> {
    seq![67u8, 97u8, 110u8, 110u8, 111u8, 116u8, 32u8, 72u8, 97u8, 110u8, 100u8, 108u8, 101u8, 32u8, 99u8, 111u8, 109u8, 109u8, 97u8, 110u8, 100u8, 32u8]
}

pub(crate) fn msg_unknown_command_bytes() -> (r: Vec<u8>)
    ensures
        r@ == msg_unknown_command(),
{
    let a: [u8; 22] = [67u8, 97u8, 110u8, 110u8, 111u8, 116u8, 32u8, 72u8, 97u8, 110u8, 100u8, 108u8, 101u8, 32u8, 99u8, 111u8, 109u8, 109u8, 97u8, 110u8, 100u8, 32u8];
    let r = slice_to_vec(a.as_slice());
    assert(r@ =~= msg_unknown_command());
    r
}

/// `OK`
pub(crate) fn ok_word_bytes() -> (r: Vec<u8>)
    ensures
        r@ == crate::storage::ok_bytes(),
{
    let a: [u8; 2] = [79u8, 75u8];
    let r = slice_to_vec(a.as_slice());
    assert(r@ =~= crate::storage::ok_bytes());
    r
}

} // verus!
