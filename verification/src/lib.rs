//! A continuously updated model of a watched domain, built from noisy
//! multisensor evidence, and the decisions drawn from it.

pub mod action;
pub mod beacon;
pub mod constraint;
pub mod decision_record;
pub mod falsifier;
pub mod ingress;
pub mod latent_state;
pub mod observation;
pub mod planner;
pub mod planning_beacon;
pub mod policy;
pub mod render;
pub mod sensor;
pub mod state;
pub mod text;
pub mod timeline;
pub mod transmission;
