//! Timestamped, confidence-tagged readings.

use vstd::prelude::*;

verus! {

/// One reading from one source. `timestamp` is a logical tick of that
/// source's own clock; `x`, `y` and `confidence` are fixed-point values
/// (see `text::SCALE`).
#[derive(Debug)]
pub struct Observation {
    pub source_id: String,
    pub timestamp: u64,
    pub x: i64,
    pub y: i64,
    pub confidence: i64,
    pub payload: ObservationPayload,
}

/// What a reading measured. Every real-valued field is fixed-point.
#[derive(Debug)]
pub enum ObservationPayload {
    SurvivorSignal { strength: i64 },
    WaterReading { surface_temp_c: i64, turbidity: i64, spectral_anomaly: i64 },
    Weather { wind_speed: i64, humidity: i64 },
    Wifi { network: String, strength: i64 },
    PowerGrid { continuity: bool, voltage: bool },
    HumanFieldReport { category: String, what_changed: String },
}

/// Whether two payloads are of the same variant.
pub open spec fn same_kind(a: ObservationPayload, b: ObservationPayload) -> bool {
    ||| a is SurvivorSignal && b is SurvivorSignal
    ||| a is WaterReading && b is WaterReading
    ||| a is Weather && b is Weather
    ||| a is Wifi && b is Wifi
    ||| a is PowerGrid && b is PowerGrid
    ||| a is HumanFieldReport && b is HumanFieldReport
}

impl ObservationPayload {
    /// Whether `self` and `other` are of the same variant.
    pub fn same_kind_as(&self, other: &ObservationPayload) -> (b: bool)
        ensures
            b == same_kind(*self, *other),
    {
        match (self, other) {
            (ObservationPayload::SurvivorSignal { .. }, ObservationPayload::SurvivorSignal { .. }) => true,
            (ObservationPayload::WaterReading { .. }, ObservationPayload::WaterReading { .. }) => true,
            (ObservationPayload::Weather { .. }, ObservationPayload::Weather { .. }) => true,
            (ObservationPayload::Wifi { .. }, ObservationPayload::Wifi { .. }) => true,
            (ObservationPayload::PowerGrid { .. }, ObservationPayload::PowerGrid { .. }) => true,
            (
                ObservationPayload::HumanFieldReport { .. },
                ObservationPayload::HumanFieldReport { .. },
            ) => true,
            _ => false,
        }
    }
}

impl Clone for ObservationPayload {
    fn clone(&self) -> (r: Self)
        ensures
            r == *self,
    {
        match self {
            ObservationPayload::SurvivorSignal { strength } => ObservationPayload::SurvivorSignal {
                strength: *strength,
            },
            ObservationPayload::WaterReading { surface_temp_c, turbidity, spectral_anomaly } =>
                ObservationPayload::WaterReading {
                surface_temp_c: *surface_temp_c,
                turbidity: *turbidity,
                spectral_anomaly: *spectral_anomaly,
            },
            ObservationPayload::Weather { wind_speed, humidity } => ObservationPayload::Weather {
                wind_speed: *wind_speed,
                humidity: *humidity,
            },
            ObservationPayload::Wifi { network, strength } => ObservationPayload::Wifi {
                network: network.clone(),
                strength: *strength,
            },
            ObservationPayload::PowerGrid { continuity, voltage } => ObservationPayload::PowerGrid {
                continuity: *continuity,
                voltage: *voltage,
            },
            ObservationPayload::HumanFieldReport { category, what_changed } =>
                ObservationPayload::HumanFieldReport {
                category: category.clone(),
                what_changed: what_changed.clone(),
            },
        }
    }
}

impl Clone for Observation {
    fn clone(&self) -> (r: Self)
        ensures
            r == *self,
    {
        Observation {
            source_id: self.source_id.clone(),
            timestamp: self.timestamp,
            x: self.x,
            y: self.y,
            confidence: self.confidence,
            payload: self.payload.clone(),
        }
    }
}

} // verus!
