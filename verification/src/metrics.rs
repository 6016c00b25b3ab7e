//! The metrics page: gauges in the Prometheus text format.

use crate::encoding::{
    decimal, push_decimal, push_signed_decimal, push_text, signed_decimal, text,
};
use vstd::prelude::*;

verus! {

/// The metrics page for the given gauges.
pub open spec fn metrics_text(
    users_count: nat,
    sth_count: nat,
    ws_sessions: nat,
    last_sth_timestamp: int,
) -> Seq<u8> {
    text(
        "# HELP process_up Whether the process is running\n# TYPE process_up gauge\nprocess_up 1\n\n# HELP users_count Total number of registered users\n# TYPE users_count gauge\nusers_count ",
    ) + decimal(users_count) + text(
        "\n\n# HELP sth_count Total number of STH entries\n# TYPE sth_count gauge\nsth_count ",
    ) + decimal(sth_count) + text(
        "\n\n# HELP ws_sessions Number of active WebSocket sessions\n# TYPE ws_sessions gauge\nws_sessions ",
    ) + decimal(ws_sessions) + text(
        "\n\n# HELP last_sth_timestamp Timestamp of the latest STH\n# TYPE last_sth_timestamp gauge\nlast_sth_timestamp ",
    ) + signed_decimal(last_sth_timestamp) + text("\n")
}

/// Renders the metrics page.
pub fn render_metrics(
    users_count: usize,
    sth_count: usize,
    ws_sessions: usize,
    last_sth_timestamp: i64,
) -> (page: Vec<u8>)
    ensures
        page@ == metrics_text(
            users_count as nat,
            sth_count as nat,
            ws_sessions as nat,
            last_sth_timestamp as int,
        ),
{
    let mut page: Vec<u8> = Vec::new();
    push_text(
        &mut page,
        "# HELP process_up Whether the process is running\n# TYPE process_up gauge\nprocess_up 1\n\n# HELP users_count Total number of registered users\n# TYPE users_count gauge\nusers_count ",
    );
    push_decimal(&mut page, users_count as u64);
    push_text(
        &mut page,
        "\n\n# HELP sth_count Total number of STH entries\n# TYPE sth_count gauge\nsth_count ",
    );
    push_decimal(&mut page, sth_count as u64);
    push_text(
        &mut page,
        "\n\n# HELP ws_sessions Number of active WebSocket sessions\n# TYPE ws_sessions gauge\nws_sessions ",
    );
    push_decimal(&mut page, ws_sessions as u64);
    push_text(
        &mut page,
        "\n\n# HELP last_sth_timestamp Timestamp of the latest STH\n# TYPE last_sth_timestamp gauge\nlast_sth_timestamp ",
    );
    push_signed_decimal(&mut page, last_sth_timestamp);
    push_text(&mut page, "\n");
    page
}

} // verus!
