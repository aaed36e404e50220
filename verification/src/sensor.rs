//! Sensors, and the scripted mock drone and water sensor.

use vstd::prelude::*;
use vstd::string::*;
use crate::observation::{Observation, ObservationPayload};

verus! {

/// Something that produces one observation each time it is read.
pub trait Sensor {
    /// Whether the sensor can take another reading (its tick counter can advance).
    spec fn ready(&self) -> bool;

    fn observe(&mut self) -> Observation
        requires
            old(self).ready(),
    ;
}

/// A scripted drone reporting a survivor signal. Its position is fixed-point.
#[derive(Debug)]
pub struct MockDrone {
    pub id: String,
    pub x: i64,
    pub y: i64,
    pub step: u64,
}

impl MockDrone {
    pub fn new(id: &str, x: i64, y: i64) -> (d: Self)
        ensures
            d.id@ == id@,
            d.x == x,
            d.y == y,
            d.step == 0,
    {
        MockDrone { id: String::from_str(id), x, y, step: 0 }
    }
}

/// The survivor-signal strength the drone reports at tick `step`, cycling
/// through 0.42, 0.81, 0.63, 0.15.
pub open spec fn drone_signal(step: u64) -> i64 {
    let r = step % 4;
    if r == 0 {
        1500
    } else if r == 1 {
        4200
    } else if r == 2 {
        8100
    } else {
        6300
    }
}

/// The confidence (0.90) of every drone reading.
pub const DRONE_CONFIDENCE: i64 = 9000;

impl Sensor for MockDrone {
    open spec fn ready(&self) -> bool {
        self.step < u64::MAX
    }

    /// Advances the tick and reports the scripted signal at the drone's position.
    fn observe(&mut self) -> (o: Observation)
        ensures
            final(self).step == old(self).step + 1,
            final(self).id == old(self).id,
            final(self).x == old(self).x,
            final(self).y == old(self).y,
            o == (Observation {
                source_id: old(self).id,
                timestamp: final(self).step,
                x: old(self).x,
                y: old(self).y,
                confidence: DRONE_CONFIDENCE,
                payload: ObservationPayload::SurvivorSignal {
                    strength: drone_signal(final(self).step),
                },
            }),
    {
        self.step = self.step + 1;
        let r = self.step % 4;
        let signal: i64 = if r == 0 {
            1500
        } else if r == 1 {
            4200
        } else if r == 2 {
            8100
        } else {
            6300
        };
        Observation {
            source_id: self.id.clone(),
            timestamp: self.step,
            x: self.x,
            y: self.y,
            confidence: DRONE_CONFIDENCE,
            payload: ObservationPayload::SurvivorSignal { strength: signal },
        }
    }
}

/// A scripted water sensor. Its position is fixed-point.
#[derive(Debug)]
pub struct MockWaterSensor {
    pub id: String,
    pub x: i64,
    pub y: i64,
    pub step: u64,
}

impl MockWaterSensor {
    pub fn new(id: &str, x: i64, y: i64) -> (w: Self)
        ensures
            w.id@ == id@,
            w.x == x,
            w.y == y,
            w.step == 0,
    {
        MockWaterSensor { id: String::from_str(id), x, y, step: 0 }
    }
}

/// Surface temperature at tick `step`: 18 °C plus `step % 3` degrees.
pub open spec fn water_temperature(step: u64) -> i64 {
    (180000 + 10000 * (step % 3)) as i64
}

/// Turbidity at tick `step`, cycling through 0.35, 0.75, 0.50, 0.20.
pub open spec fn water_turbidity(step: u64) -> i64 {
    let r = step % 4;
    if r == 0 {
        2000
    } else if r == 1 {
        3500
    } else if r == 2 {
        7500
    } else {
        5000
    }
}

/// Confidence at tick `step`: 0.92 at tick 6, 0.85 otherwise.
pub open spec fn water_confidence(step: u64) -> i64 {
    if step == 6 {
        9200
    } else {
        8500
    }
}

/// Spectral anomaly at tick `step`, cycling through 0.25, 0.80, 0.40, 0.15, 0.10.
pub open spec fn water_spectral(step: u64) -> i64 {
    let r = step % 5;
    if r == 0 {
        1000
    } else if r == 1 {
        2500
    } else if r == 2 {
        8000
    } else if r == 3 {
        4000
    } else {
        1500
    }
}

impl Sensor for MockWaterSensor {
    open spec fn ready(&self) -> bool {
        self.step < u64::MAX
    }

    /// Advances the tick and reports the scripted water reading.
    fn observe(&mut self) -> (o: Observation)
        ensures
            final(self).step == old(self).step + 1,
            final(self).id == old(self).id,
            final(self).x == old(self).x,
            final(self).y == old(self).y,
            o == (Observation {
                source_id: old(self).id,
                timestamp: final(self).step,
                x: old(self).x,
                y: old(self).y,
                confidence: water_confidence(final(self).step),
                payload: ObservationPayload::WaterReading {
                    surface_temp_c: water_temperature(final(self).step),
                    turbidity: water_turbidity(final(self).step),
                    spectral_anomaly: water_spectral(final(self).step),
                },
            }),
    {
        self.step = self.step + 1;
        let surface_temp_c: i64 = 180000 + 10000 * ((self.step % 3) as i64);
        let t = self.step % 4;
        let turbidity: i64 = if t == 0 {
            2000
        } else if t == 1 {
            3500
        } else if t == 2 {
            7500
        } else {
            5000
        };
        let confidence: i64 = if self.step == 2 {
            8500
        } else if self.step == 6 {
            9200
        } else {
            8500
        };
        let s = self.step % 5;
        let spectral_anomaly: i64 = if s == 0 {
            1000
        } else if s == 1 {
            2500
        } else if s == 2 {
            8000
        } else if s == 3 {
            4000
        } else {
            1500
        };
        Observation {
            source_id: self.id.clone(),
            timestamp: self.step,
            x: self.x,
            y: self.y,
            confidence,
            payload: ObservationPayload::WaterReading { surface_temp_c, turbidity, spectral_anomaly },
        }
    }
}

} // verus!
