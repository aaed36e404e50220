# melt

A continuously updated model of a watched domain, built from noisy multisensor
evidence, and the decisions drawn from it, with every function's contract
proved.

A *beacon* (`PlanningBeacon`) orders observations by timestamp, keeps the full
history and the latest reading per source (`WorldState`), and infers a latent
state from the primary source: motion, persistence, lineage and confidence. A
planning pipeline derives candidate actions from the latest readings, vetoes
those below a minimum confidence, scores the rest (`RescuePolicy`), selects
the best (`select_best`) and renders the decision feed (`render_cycle`).

Every real-valued reading is a fixed-point `i64` counting ten-thousandths
(`text::SCALE`), so `9000` is `0.90`. Scores count hundred-thousandths
(`policy::SCORE_SCALE`) and the inferred confidence twenty-thousandths
(`latent_state::LATENT_SCALE`), so that seven tenths of a confidence and the
mean of two confidences are held exactly. The feed shows values with two
decimals, rounding the exact value with ties to even.

Layout: `src/` is the verified library, `tests/` its tests, and `app/main.rs`
runs six decision cycles against the scripted mock sensors and prints them.
