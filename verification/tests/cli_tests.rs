use ramort::cargo_cli::describe_potential;

#[test]
fn describes_zero_potential_on_single_resource() {
    assert_eq!(describe_potential(Some("0*len(self.back)")), "zero potential on back");
}

#[test]
fn omits_zero_terms_from_nonzero_potential() {
    assert_eq!(describe_potential(Some("0*len(self.front) + 2*len(self.back)")), "potential 2 * len(self.back)");
}
