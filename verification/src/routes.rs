//! What the query endpoints decide: the limit of a chain query, the status
//! of an answer, and the health report.

use crate::error::CoreError;
use crate::sth::STH;
use vstd::prelude::*;

verus! {

/// The number of tree heads that a chain query returns when it names no
/// limit.
pub const DEFAULT_CHAIN_LIMIT: usize = 10;

/// The HTTP status of a query that found what it asked for.
pub const STATUS_OK: u16 = 200;

/// The HTTP status of a query on an empty chain.
pub const STATUS_NOT_FOUND: u16 = 404;

/// The HTTP status of a query that failed.
pub const STATUS_SERVER_ERROR: u16 = 500;

/// The parameters of a chain query.
#[derive(Clone, Copy, Debug, PartialEq, Eq)]
pub struct ChainQuery {
    pub limit: Option<usize>,
}

impl ChainQuery {
    /// The limit that the query asks for, or the default of ten.
    pub fn limit_or_default(&self) -> (limit: usize)
        ensures
            limit == match self.limit {
                Some(n) => n,
                None => DEFAULT_CHAIN_LIMIT,
            },
    {
        match self.limit {
            Some(n) => n,
            None => DEFAULT_CHAIN_LIMIT,
        }
    }
}

/// The health report of the service.
#[derive(Clone, Debug, PartialEq, Eq)]
pub struct HealthResponse {
    pub status: String,
    pub timestamp: i64,
    pub users_count: usize,
    pub sth_count: usize,
}

impl HealthResponse {
    /// The report of a healthy service at `timestamp`.
    pub fn healthy(timestamp: i64, users_count: usize, sth_count: usize) -> (report: HealthResponse)
        ensures
            report.status@ == "healthy"@,
            report.timestamp == timestamp,
            report.users_count == users_count,
            report.sth_count == sth_count,
    {
        HealthResponse {
            status: "healthy".to_owned(),
            timestamp,
            users_count,
            sth_count,
        }
    }
}

/// The status with which the latest-tree-head query answers: an empty chain
/// is "not found" and no error, every failure is a server error.
pub fn latest_status(outcome: &Result<Option<STH>, CoreError>) -> (status: u16)
    ensures
        status == match *outcome {
            Ok(Some(_)) => STATUS_OK,
            Ok(None) => STATUS_NOT_FOUND,
            Err(_) => STATUS_SERVER_ERROR,
        },
{
    match outcome {
        Ok(Some(_)) => STATUS_OK,
        Ok(None) => STATUS_NOT_FOUND,
        Err(_) => STATUS_SERVER_ERROR,
    }
}

/// The status with which the chain query answers.
pub fn chain_status(outcome: &Result<Vec<STH>, CoreError>) -> (status: u16)
    ensures
        status == match *outcome {
            Ok(_) => STATUS_OK,
            Err(_) => STATUS_SERVER_ERROR,
        },
{
    match outcome {
        Ok(_) => STATUS_OK,
        Err(_) => STATUS_SERVER_ERROR,
    }
}

} // verus!
