//! The events that supervising threads report to the engine.

use vstd::prelude::*;
use crate::process_manager::{AppStatus, StatusView};

verus! {

/// Something a supervising thread reports about an application.
#[derive(Debug, Clone)]
pub enum Event {
    /// A line the process wrote.
    Log(u128, String),
    StatusChanged(u128, AppStatus),
    /// Whether the application answered its last health probe.
    HealthChanged(u128, bool),
    /// "Start all" reached this application.
    StartRequested(u128),
}

pub enum EventView {
    Log(u128, Seq<char>),
    StatusChanged(u128, StatusView),
    HealthChanged(u128, bool),
    StartRequested(u128),
}

impl View for Event {
    type V = EventView;

    open spec fn view(&self) -> EventView {
        match self {
            Event::Log(id, line) => EventView::Log(*id, line@),
            Event::StatusChanged(id, s) => EventView::StatusChanged(*id, s@),
            Event::HealthChanged(id, h) => EventView::HealthChanged(*id, *h),
            Event::StartRequested(id) => EventView::StartRequested(*id),
        }
    }
}

} // verus!
